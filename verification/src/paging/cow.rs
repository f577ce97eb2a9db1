//! Copy-on-write duplication of an address space's page tables, for fork.
//!
//! The copy is a new tree of tables, each taken from the frame allocator,
//! that mirrors the source tree: links keep their present, writable and
//! user bits, large pages and user leaf pages lose their writable bit and
//! gain the copy-on-write bit, and kernel leaf pages are shared as they are.

use vstd::prelude::*;
use crate::paging::{PhysicalMemory, page_flags, ADDR_MASK, PT_ENTRIES, entry_addr, is_present, is_large,
    table_in_use, spec_frame_idx, word_frame, lemma_table_word_frame, lemma_mask_aligned, lemma_entry_bits,
    lemma_index_bound, cow_leaf, pml4_idx, pdpt_idx, pd_idx, pt_idx};
use crate::paging::cow_mark::{mark_tree_cow, pml4_marked, lemma_marks_keep_tree_ok, lemma_tree_same,
    lemma_copied_same_source, lemma_marked_survive, lemma_marks_keep_tables};

verus! {

/// A leaf made copy-on-write: writable bit cleared, COW bit set.
pub open spec fn cow_entry(e: u64) -> u64 {
    (e & 0xFFFF_FFFF_FFFF_FFFDu64) | 0x200u64
}

/// The copy of a PT entry: absent stays absent (zero), a kernel page is
/// shared as it is, a user page becomes copy-on-write.
pub open spec fn leaf_copy(e: u64) -> u64 {
    if !is_present(e) {
        0
    } else if e & 0x4u64 == 0 {
        e
    } else {
        cow_entry(e)
    }
}

/// An entry linking table `t` with the present, writable and user bits of
/// the source entry `e`.
pub open spec fn link_entry(t: u64, e: u64) -> u64 {
    (t & ADDR_MASK) | (e & 0x7u64)
}

/// From `a` to `b` no frame became free, and RAM changed only in frames
/// that were free in `a` or in frame `x`.
pub open spec fn changes_within(a: &PhysicalMemory, b: &PhysicalMemory, x: int) -> bool {
    &&& forall|j: int| #[trigger] b.is_free(j) ==> a.is_free(j)
    &&& forall|w: int| #[trigger] b.word(w) != a.word(w) ==> a.is_free(word_frame(w)) || word_frame(w) == x
}

/// The table at `t` in `m` is the copy of the page table at `s` in `ms`.
pub open spec fn pt_copied(ms: &PhysicalMemory, m: &PhysicalMemory, s: u64, t: u64) -> bool {
    &&& table_in_use(m, t)
    &&& forall|i: int| 0 <= i < 512 ==> #[trigger] m.entry(t, i) == leaf_copy(ms.entry(s, i))
}

/// Entry `f` (in `m`) is the copy of the PD entry `e` (in `ms`).
pub open spec fn pd_entry_copied(ms: &PhysicalMemory, m: &PhysicalMemory, e: u64, f: u64) -> bool {
    if !is_present(e) {
        f == 0
    } else if is_large(e) {
        f == cow_entry(e)
    } else {
        f == link_entry(entry_addr(f), e) && pt_copied(ms, m, entry_addr(e), entry_addr(f))
    }
}

/// The table at `t` in `m` is the copy of the PD at `s` in `ms`.
pub open spec fn pd_copied(ms: &PhysicalMemory, m: &PhysicalMemory, s: u64, t: u64) -> bool {
    &&& table_in_use(m, t)
    &&& forall|i: int| 0 <= i < 512 ==> pd_entry_copied(ms, m, ms.entry(s, i), #[trigger] m.entry(t, i))
}

/// Entry `f` (in `m`) is the copy of the PDPT entry `e` (in `ms`).
pub open spec fn pdpt_entry_copied(ms: &PhysicalMemory, m: &PhysicalMemory, e: u64, f: u64) -> bool {
    if !is_present(e) {
        f == 0
    } else if is_large(e) {
        f == cow_entry(e)
    } else {
        f == link_entry(entry_addr(f), e) && pd_copied(ms, m, entry_addr(e), entry_addr(f))
    }
}

/// The table at `t` in `m` is the copy of the PDPT at `s` in `ms`.
pub open spec fn pdpt_copied(ms: &PhysicalMemory, m: &PhysicalMemory, s: u64, t: u64) -> bool {
    &&& table_in_use(m, t)
    &&& forall|i: int| 0 <= i < 512 ==> pdpt_entry_copied(ms, m, ms.entry(s, i), #[trigger] m.entry(t, i))
}

/// Entry `f` (in `m`) is the copy of the PML4 entry `e` (in `ms`).
pub open spec fn pml4_entry_copied(ms: &PhysicalMemory, m: &PhysicalMemory, e: u64, f: u64) -> bool {
    if !is_present(e) {
        f == 0
    } else {
        f == link_entry(entry_addr(f), e) && pdpt_copied(ms, m, entry_addr(e), entry_addr(f))
    }
}

/// The table at `t` in `m` is the copy of the PML4 at `s` in `ms`.
pub open spec fn pml4_copied(ms: &PhysicalMemory, m: &PhysicalMemory, s: u64, t: u64) -> bool {
    &&& table_in_use(m, t)
    &&& forall|i: int| 0 <= i < 512 ==> pml4_entry_copied(ms, m, ms.entry(s, i), #[trigger] m.entry(t, i))
}

/// The page table at `s` is held in use in `ms`.
pub open spec fn src_pt_ok(ms: &PhysicalMemory, s: u64) -> bool {
    !ms.is_free(spec_frame_idx(s as int))
}

/// The PD at `s` and the page tables it links are held in use in `ms`.
pub open spec fn src_pd_ok(ms: &PhysicalMemory, s: u64) -> bool {
    &&& !ms.is_free(spec_frame_idx(s as int))
    &&& forall|i: int| 0 <= i < 512 ==> {
            let e = #[trigger] ms.entry(s, i);
            is_present(e) && !is_large(e) ==> src_pt_ok(ms, entry_addr(e))
        }
}

/// The PDPT at `s` and every table below it are held in use in `ms`.
pub open spec fn src_pdpt_ok(ms: &PhysicalMemory, s: u64) -> bool {
    &&& !ms.is_free(spec_frame_idx(s as int))
    &&& forall|i: int| 0 <= i < 512 ==> {
            let e = #[trigger] ms.entry(s, i);
            is_present(e) && !is_large(e) ==> src_pd_ok(ms, entry_addr(e))
        }
}

/// The tree rooted at the PML4 `s` is held in use in `ms`: every table
/// reached through present entries that are not large pages.
pub open spec fn src_tree_ok(ms: &PhysicalMemory, s: u64) -> bool {
    &&& !ms.is_free(spec_frame_idx(s as int))
    &&& forall|i: int| 0 <= i < 512 ==> {
            let e = #[trigger] ms.entry(s, i);
            is_present(e) ==> src_pdpt_ok(ms, entry_addr(e))
        }
}

/// Number of page tables that the first `n` entries of the PD at `s` (in
/// `ms`) link: a copy takes one frame for each.
pub open spec fn pd_need(ms: &PhysicalMemory, s: u64, n: int) -> nat
    decreases n,
{
    if n <= 0 {
        0
    } else {
        let e = ms.entry(s, n - 1);
        pd_need(ms, s, n - 1) + if is_present(e) && !is_large(e) { 1nat } else { 0nat }
    }
}

/// Number of tables below the first `n` entries of the PDPT at `s`: each
/// linked PD and the page tables it links.
pub open spec fn pdpt_need(ms: &PhysicalMemory, s: u64, n: int) -> nat
    decreases n,
{
    if n <= 0 {
        0
    } else {
        let e = ms.entry(s, n - 1);
        pdpt_need(ms, s, n - 1) + if is_present(e) && !is_large(e) { 1 + pd_need(ms, entry_addr(e), 512) } else { 0nat }
    }
}

/// Number of tables below the first `n` entries of the PML4 at `s`.
pub open spec fn pml4_need(ms: &PhysicalMemory, s: u64, n: int) -> nat
    decreases n,
{
    if n <= 0 {
        0
    } else {
        let e = ms.entry(s, n - 1);
        pml4_need(ms, s, n - 1) + if is_present(e) { 1 + pdpt_need(ms, entry_addr(e), 512) } else { 0nat }
    }
}

/// Number of frames that a copy of the tree rooted at the PML4 `s` takes:
/// one for each of its tables.
pub open spec fn tree_tables(ms: &PhysicalMemory, s: u64) -> nat {
    1 + pml4_need(ms, s, 512)
}

proof fn lemma_pd_need_mono(ms: &PhysicalMemory, s: u64, i: int, n: int)
    requires
        0 <= i <= n,
    ensures
        pd_need(ms, s, i) <= pd_need(ms, s, n),
    decreases n - i,
{
    if i < n {
        lemma_pd_need_mono(ms, s, i, n - 1);
    }
}

proof fn lemma_pdpt_need_mono(ms: &PhysicalMemory, s: u64, i: int, n: int)
    requires
        0 <= i <= n,
    ensures
        pdpt_need(ms, s, i) <= pdpt_need(ms, s, n),
    decreases n - i,
{
    if i < n {
        lemma_pdpt_need_mono(ms, s, i, n - 1);
    }
}

proof fn lemma_pml4_need_mono(ms: &PhysicalMemory, s: u64, i: int, n: int)
    requires
        0 <= i <= n,
    ensures
        pml4_need(ms, s, i) <= pml4_need(ms, s, n),
    decreases n - i,
{
    if i < n {
        lemma_pml4_need_mono(ms, s, i, n - 1);
    }
}

/// Every page table linked from the table at `t` in `m` was free in `a`.
pub open spec fn pd_fresh(a: &PhysicalMemory, m: &PhysicalMemory, t: u64) -> bool {
    forall|i: int| 0 <= i < 512 ==> {
        let f = #[trigger] m.entry(t, i);
        is_present(f) && !is_large(f) ==> a.is_free(spec_frame_idx(entry_addr(f) as int))
    }
}

/// Every table below the table at `t` in `m` was free in `a`.
pub open spec fn pdpt_fresh(a: &PhysicalMemory, m: &PhysicalMemory, t: u64) -> bool {
    forall|i: int| 0 <= i < 512 ==> {
        let f = #[trigger] m.entry(t, i);
        is_present(f) && !is_large(f) ==> a.is_free(spec_frame_idx(entry_addr(f) as int)) && pd_fresh(a, m, entry_addr(f))
    }
}

/// Neither the table at `t` nor a page table it links lies in frame `x`.
pub open spec fn pd_avoids(m: &PhysicalMemory, t: u64, x: int) -> bool {
    &&& spec_frame_idx(t as int) != x
    &&& forall|i: int| 0 <= i < 512 ==> {
            let f = #[trigger] m.entry(t, i);
            is_present(f) && !is_large(f) ==> spec_frame_idx(entry_addr(f) as int) != x
        }
}

/// No table of the tree below `t` (itself included) lies in frame `x`.
pub open spec fn pdpt_avoids(m: &PhysicalMemory, t: u64, x: int) -> bool {
    &&& spec_frame_idx(t as int) != x
    &&& forall|i: int| 0 <= i < 512 ==> {
            let f = #[trigger] m.entry(t, i);
            is_present(f) && !is_large(f) ==> pd_avoids(m, entry_addr(f), x)
        }
}

proof fn lemma_changes_compose(a: &PhysicalMemory, b: &PhysicalMemory, c: &PhysicalMemory, x: int, y: int)
    requires
        changes_within(a, b, x),
        changes_within(b, c, y),
        y == x || a.is_free(y),
    ensures
        changes_within(a, c, x),
{
    assert forall|w: int| #[trigger] c.word(w) != a.word(w) implies a.is_free(word_frame(w)) || word_frame(w) == x by {
        if c.word(w) != b.word(w) {
            if b.is_free(word_frame(w)) {
                assert(a.is_free(word_frame(w)));
            }
        }
    }
}

proof fn lemma_changes_any(a: &PhysicalMemory, b: &PhysicalMemory, x: int, y: int)
    requires
        changes_within(a, b, x),
        a.is_free(x),
    ensures
        changes_within(a, b, y),
{
}

/// A table in use in `a` and not in frame `x` keeps its entries.
proof fn lemma_entry_kept(a: &PhysicalMemory, b: &PhysicalMemory, x: int, t: u64, i: int)
    requires
        changes_within(a, b, x),
        t % 4096 == 0,
        !a.is_free(spec_frame_idx(t as int)),
        spec_frame_idx(t as int) != x,
        0 <= i < 512,
    ensures
        b.entry(t, i) == a.entry(t, i),
{
    lemma_table_word_frame(t, i);
}

proof fn lemma_pt_kept(ms: &PhysicalMemory, a: &PhysicalMemory, b: &PhysicalMemory, x: int, s: u64, t: u64)
    requires
        changes_within(a, b, x),
        pt_copied(ms, a, s, t),
        spec_frame_idx(t as int) != x,
    ensures
        pt_copied(ms, b, s, t),
        forall|i: int| 0 <= i < 512 ==> #[trigger] b.entry(t, i) == a.entry(t, i),
{
    assert forall|i: int| 0 <= i < 512 implies #[trigger] b.entry(t, i) == a.entry(t, i) by {
        lemma_entry_kept(a, b, x, t, i);
    }
}

proof fn lemma_pd_kept(ms: &PhysicalMemory, a: &PhysicalMemory, b: &PhysicalMemory, x: int, s: u64, t: u64)
    requires
        changes_within(a, b, x),
        pd_copied(ms, a, s, t),
        pd_avoids(a, t, x),
    ensures
        pd_copied(ms, b, s, t),
        pd_avoids(b, t, x),
        forall|i: int| 0 <= i < 512 ==> #[trigger] b.entry(t, i) == a.entry(t, i),
{
    assert forall|i: int| 0 <= i < 512 implies #[trigger] b.entry(t, i) == a.entry(t, i) by {
        lemma_entry_kept(a, b, x, t, i);
    }
    assert forall|i: int| 0 <= i < 512 implies pd_entry_copied(ms, b, ms.entry(s, i), #[trigger] b.entry(t, i)) by {
        let e = ms.entry(s, i);
        let f = a.entry(t, i);
        assert(pd_entry_copied(ms, a, e, f));
        if is_present(e) && !is_large(e) {
            assert(f == link_entry(entry_addr(f), e));
            lemma_mask_aligned(f);
            lemma_link_bits(entry_addr(f), e);
            lemma_pt_kept(ms, a, b, x, entry_addr(e), entry_addr(f));
        }
    }
}

proof fn lemma_pdpt_kept(ms: &PhysicalMemory, a: &PhysicalMemory, b: &PhysicalMemory, x: int, s: u64, t: u64)
    requires
        changes_within(a, b, x),
        pdpt_copied(ms, a, s, t),
        pdpt_avoids(a, t, x),
    ensures
        pdpt_copied(ms, b, s, t),
        pdpt_avoids(b, t, x),
        forall|i: int| 0 <= i < 512 ==> #[trigger] b.entry(t, i) == a.entry(t, i),
{
    assert forall|i: int| 0 <= i < 512 implies #[trigger] b.entry(t, i) == a.entry(t, i) by {
        lemma_entry_kept(a, b, x, t, i);
    }
    assert forall|i: int| 0 <= i < 512 implies pdpt_entry_copied(ms, b, ms.entry(s, i), #[trigger] b.entry(t, i)) by {
        let e = ms.entry(s, i);
        let f = a.entry(t, i);
        assert(pdpt_entry_copied(ms, a, e, f));
        if is_present(e) && !is_large(e) {
            lemma_mask_aligned(f);
            lemma_link_bits(entry_addr(f), e);
            lemma_pd_kept(ms, a, b, x, entry_addr(e), entry_addr(f));
        }
    }
    crate::bitops::lemma_flag_constants();
    assert forall|i: int| 0 <= i < 512 implies {
        let f = #[trigger] b.entry(t, i);
        is_present(f) && !is_large(f) ==> pd_avoids(b, entry_addr(f), x)
    } by {
        let e = ms.entry(s, i);
        let f = a.entry(t, i);
        assert(pdpt_entry_copied(ms, a, e, f));
        assert(b.entry(t, i) == f);
        if is_present(f) && !is_large(f) {
            if is_present(e) && !is_large(e) {
                lemma_mask_aligned(f);
                lemma_link_bits(entry_addr(f), e);
                lemma_pd_kept(ms, a, b, x, entry_addr(e), entry_addr(f));
            } else if is_present(e) {
                lemma_cow_large(e);
            }
        }
    }
}

/// A link entry is present, not large, and points to its table.
proof fn lemma_link_bits(t: u64, e: u64)
    ensures
        t % 4096 == 0 && t < 0x0010_0000_0000_0000 && is_present(e) ==> {
            &&& is_present(link_entry(t, e))
            &&& !is_large(link_entry(t, e))
            &&& entry_addr(link_entry(t, e)) == t
        },
        !is_large(link_entry(t, e)),
        entry_addr(link_entry(t, e)) == t & ADDR_MASK,
{
    assert({
        &&& ((t & 0x000F_FFFF_FFFF_F000u64) | (e & 0x7u64)) & 0x80u64 == 0
        &&& ((t & 0x000F_FFFF_FFFF_F000u64) | (e & 0x7u64)) & 0x000F_FFFF_FFFF_F000u64 == t & 0x000F_FFFF_FFFF_F000u64
        &&& (t % 4096 == 0 && t < 0x0010_0000_0000_0000u64 && (e & 0x1u64) != 0 ==> {
            &&& ((t & 0x000F_FFFF_FFFF_F000u64) | (e & 0x7u64)) & 0x1u64 != 0
            &&& t & 0x000F_FFFF_FFFF_F000u64 == t
        })
    }) by (bit_vector);
}

/// A copy-on-write large page stays a present large page.
proof fn lemma_cow_large(e: u64)
    ensures
        is_present(e) ==> is_present(cow_entry(e)),
        is_large(e) ==> is_large(cow_entry(e)),
        (e & !0x2u64) | 0x200u64 == cow_entry(e),
{
    assert({
        &&& ((e & 0x1u64) != 0 ==> ((e & 0xFFFF_FFFF_FFFF_FFFDu64) | 0x200u64) & 0x1u64 != 0)
        &&& ((e & 0x80u64) != 0 ==> ((e & 0xFFFF_FFFF_FFFF_FFFDu64) | 0x200u64) & 0x80u64 != 0)
        &&& (e & !0x2u64) | 0x200u64 == (e & 0xFFFF_FFFF_FFFF_FFFDu64) | 0x200u64
    }) by (bit_vector);
}

/// Fill the zeroed table at `d` with the copy of the page table at `s`.
fn copy_pt(mem: &mut PhysicalMemory, Ghost(ms): Ghost<PhysicalMemory>, s: u64, d: u64)
    requires
        old(mem).wf(),
        s % 4096 == 0,
        d % 4096 == 0,
        !old(mem).exhausted() ==> {
            &&& changes_within(&ms, old(mem), spec_frame_idx(d as int))
            &&& ms.is_free(spec_frame_idx(d as int))
            &&& table_in_use(old(mem), d)
            &&& forall|i: int| 0 <= i < 512 ==> #[trigger] old(mem).entry(d, i) == 0
        },
    ensures
        final(mem).wf(),
        forall|j: int| #[trigger] final(mem).is_free(j) == old(mem).is_free(j),
        forall|w: int| #[trigger] final(mem).word(w) != old(mem).word(w) ==> d / 8 <= w < d / 8 + 512,
        !old(mem).exhausted() && src_pt_ok(&ms, s) ==> pt_copied(&ms, final(mem), s, d),
{
    let mut i: usize = 0;
    while i < PT_ENTRIES
        invariant
            mem.wf(),
            s % 4096 == 0,
            d % 4096 == 0,
            i <= PT_ENTRIES,
            forall|j: int| #[trigger] mem.is_free(j) == old(mem).is_free(j),
            forall|w: int| #[trigger] mem.word(w) != old(mem).word(w) ==> d / 8 <= w < d / 8 + i,
            !old(mem).exhausted() ==> {
                &&& changes_within(&ms, old(mem), spec_frame_idx(d as int))
                &&& ms.is_free(spec_frame_idx(d as int))
                &&& table_in_use(old(mem), d)
                &&& forall|k: int| 0 <= k < 512 ==> #[trigger] old(mem).entry(d, k) == 0
            },
            !old(mem).exhausted() && src_pt_ok(&ms, s) ==>
                forall|k: int| 0 <= k < i ==> #[trigger] mem.entry(d, k) == leaf_copy(ms.entry(s, k)),
        decreases PT_ENTRIES - i,
    {
        let ghost prev = *mem;
        let e = mem.read_pt_entry(s, i);
        proof {
            if !old(mem).exhausted() && src_pt_ok(&ms, s) {
                lemma_table_word_frame(s, i as int);
                lemma_table_word_frame(d, 0);
                assert(old(mem).entry(s, i as int) == ms.entry(s, i as int));
                assert(e == ms.entry(s, i as int));
            }
        }
        if e & page_flags::PRESENT != 0 {
            let v = if e & page_flags::USER_ACCESS == 0 { e } else { (e & !page_flags::WRITABLE) | page_flags::COW };
            proof { lemma_cow_large(e); }
            assert(v == leaf_copy(e));
            mem.write_pt_entry(d, i, v);
            proof {
                if !old(mem).exhausted() && src_pt_ok(&ms, s) {
                    assert(mem.entry(d, i as int) == v);
                }
            }
        } else {
            assert(leaf_copy(e) == 0);
        }
        proof {
            if !old(mem).exhausted() && src_pt_ok(&ms, s) {
                assert forall|k: int| 0 <= k < i + 1 implies #[trigger] mem.entry(d, k) == leaf_copy(ms.entry(s, k)) by {
                    if k < i {
                        assert(prev.entry(d, k) == leaf_copy(ms.entry(s, k)));
                    } else {
                        assert(prev.entry(d, k) == old(mem).entry(d, k));
                    }
                }
            }
        }
        i += 1;
    }
}

/// Memory that is not exhausted was not exhausted before, when no frame
/// became free since.
proof fn lemma_not_exhausted_back(a: &PhysicalMemory, b: &PhysicalMemory)
    requires
        forall|j: int| #[trigger] b.is_free(j) ==> a.is_free(j),
        !b.exhausted(),
    ensures
        !a.exhausted(),
{
    let j = choose|j: int| 0 <= j < crate::paging::NUM_FRAMES && #[trigger] b.is_free(j);
    assert(a.is_free(j));
}

/// The copied PD entries below `n` stay copied from `a` to `b` when the
/// table at `d` keeps them and the page tables they link avoid frame `x`.
proof fn lemma_pd_prefix_kept(
    ms: &PhysicalMemory, o: &PhysicalMemory, a: &PhysicalMemory, b: &PhysicalMemory,
    x: int, s: u64, d: u64, n: int,
)
    requires
        changes_within(a, b, x),
        !o.is_free(x),
        forall|k: int| 0 <= k < n ==> pd_entry_copied(ms, a, ms.entry(s, k), #[trigger] a.entry(d, k)),
        forall|k: int| 0 <= k < n ==> {
            let f = #[trigger] a.entry(d, k);
            is_present(f) && !is_large(f) ==> o.is_free(spec_frame_idx(entry_addr(f) as int))
        },
        forall|k: int| 0 <= k < n ==> #[trigger] b.entry(d, k) == a.entry(d, k),
    ensures
        forall|k: int| 0 <= k < n ==> pd_entry_copied(ms, b, ms.entry(s, k), #[trigger] b.entry(d, k)),
        forall|k: int| 0 <= k < n ==> {
            let f = #[trigger] b.entry(d, k);
            is_present(f) && !is_large(f) ==> o.is_free(spec_frame_idx(entry_addr(f) as int))
        },
{
    assert forall|k: int| 0 <= k < n implies pd_entry_copied(ms, b, ms.entry(s, k), #[trigger] b.entry(d, k)) by {
        let e = ms.entry(s, k);
        let f = a.entry(d, k);
        assert(pd_entry_copied(ms, a, e, f));
        if is_present(e) && !is_large(e) {
            lemma_mask_aligned(f);
            lemma_link_bits(entry_addr(f), e);
            lemma_pt_kept(ms, a, b, x, entry_addr(e), entry_addr(f));
        }
    }
}

/// Fill the zeroed table at `d` with the copy of the PD at `s`, taking a
/// zeroed frame for the copy of each page table it links.
#[verifier::rlimit(60)]
fn copy_pd(mem: &mut PhysicalMemory, Ghost(ms): Ghost<PhysicalMemory>, s: u64, d: u64)
    requires
        old(mem).wf(),
        s % 4096 == 0,
        d % 4096 == 0,
        !old(mem).exhausted() ==> {
            &&& changes_within(&ms, old(mem), spec_frame_idx(d as int))
            &&& ms.is_free(spec_frame_idx(d as int))
            &&& table_in_use(old(mem), d)
            &&& forall|i: int| 0 <= i < 512 ==> #[trigger] old(mem).entry(d, i) == 0
        },
    ensures
        final(mem).wf(),
        forall|j: int| #[trigger] final(mem).is_free(j) ==> old(mem).is_free(j),
        !final(mem).exhausted() ==> {
            &&& changes_within(old(mem), final(mem), spec_frame_idx(d as int))
            &&& src_pd_ok(&ms, s) ==> pd_copied(&ms, final(mem), s, d)
            &&& src_pd_ok(&ms, s) ==> pd_fresh(old(mem), final(mem), d)
        },
        old(mem).free_count() > pd_need(&ms, s, 512) && src_pd_ok(&ms, s) ==>
            final(mem).free_count() + pd_need(&ms, s, 512) == old(mem).free_count(),
{
    let mut i: usize = 0;
    while i < PT_ENTRIES
        invariant
            mem.wf(),
            s % 4096 == 0,
            d % 4096 == 0,
            i <= PT_ENTRIES,
            forall|j: int| #[trigger] mem.is_free(j) ==> old(mem).is_free(j),
            !mem.exhausted() ==> {
                &&& changes_within(&ms, old(mem), spec_frame_idx(d as int))
                &&& ms.is_free(spec_frame_idx(d as int))
                &&& table_in_use(old(mem), d)
                &&& forall|k: int| 0 <= k < 512 ==> #[trigger] old(mem).entry(d, k) == 0
                &&& changes_within(old(mem), mem, spec_frame_idx(d as int))
                &&& forall|k: int| i <= k < 512 ==> #[trigger] mem.entry(d, k) == 0
            },
            old(mem).free_count() > pd_need(&ms, s, 512) && src_pd_ok(&ms, s) ==>
                mem.free_count() + pd_need(&ms, s, i as int) == old(mem).free_count(),
            !mem.exhausted() && src_pd_ok(&ms, s) ==> {
                &&& forall|k: int| 0 <= k < i ==> pd_entry_copied(&ms, mem, ms.entry(s, k), #[trigger] mem.entry(d, k))
                &&& forall|k: int| 0 <= k < i ==> {
                        let f = #[trigger] mem.entry(d, k);
                        is_present(f) && !is_large(f) ==> old(mem).is_free(spec_frame_idx(entry_addr(f) as int))
                    }
            },
        decreases PT_ENTRIES - i,
    {
        let ghost prev = *mem;
        let e = mem.read_pt_entry(s, i);
        let ghost counted = old(mem).free_count() > pd_need(&ms, s, 512) && src_pd_ok(&ms, s);
        proof {
            crate::bitops::lemma_flag_constants();
            if counted {
                lemma_pd_need_mono(&ms, s, i as int + 1, 512);
                prev.lemma_exhausted_iff_no_free();
            }
            if !prev.exhausted() && src_pd_ok(&ms, s) {
                lemma_not_exhausted_back(old(mem), &prev);
                lemma_table_word_frame(d, 0);
                lemma_changes_compose(&ms, old(mem), &prev, spec_frame_idx(d as int), spec_frame_idx(d as int));
                lemma_entry_kept(&ms, &prev, spec_frame_idx(d as int), s, i as int);
            }
        }
        if e & page_flags::PRESENT == 0 {
            proof {
                if !mem.exhausted() && src_pd_ok(&ms, s) {
                    assert(mem.entry(d, i as int) == 0);
                    assert(e == ms.entry(s, i as int));
                }
            }
            i += 1;
            continue;
        }
        if e & page_flags::LARGE != 0 {
            let v = (e & !page_flags::WRITABLE) | page_flags::COW;
            proof { lemma_cow_large(e); }
            mem.write_pt_entry(d, i, v);
            proof {
                PhysicalMemory::lemma_free_count_same(mem, &prev);
                if !mem.exhausted() {
                    lemma_table_word_frame(d, i as int);
                    assert(changes_within(&prev, mem, spec_frame_idx(d as int)));
                    assert forall|j: int| 0 <= j < 512 && j != i implies #[trigger] mem.entry(d, j) == prev.entry(d, j) by {
                        lemma_table_word_frame(d, j);
                    }
                    lemma_changes_compose(old(mem), &prev, mem, spec_frame_idx(d as int), spec_frame_idx(d as int));
                    if src_pd_ok(&ms, s) {
                        lemma_pd_prefix_kept(&ms, old(mem), &prev, mem, spec_frame_idx(d as int), s, d, i as int);
                        lemma_cow_large(e);
                        assert(pd_entry_copied(&ms, mem, ms.entry(s, i as int), mem.entry(d, i as int)));
                    }
                }
            }
            i += 1;
            continue;
        }
        proof { lemma_mask_aligned(e); }
        let src_pt = e & ADDR_MASK;
        let new_t = mem.alloc_zeroed_frame();
        let ghost m1 = *mem;
        let link = (new_t & ADDR_MASK) | (e & (page_flags::PRESENT | page_flags::WRITABLE | page_flags::USER_ACCESS));
        mem.write_pt_entry(d, i, link);
        let ghost m2 = *mem;
        proof {
            if !m2.exhausted() {
                let k = spec_frame_idx(new_t as int);
                assert(new_t / 8 == crate::paging::spec_frame_addr(k) / 8);
                lemma_table_word_frame(d, i as int);
                lemma_table_word_frame(new_t, 0);
                assert(changes_within(&prev, &m1, spec_frame_idx(d as int))) by {
                    assert forall|w: int| #[trigger] m1.word(w) != prev.word(w) implies
                        prev.is_free(word_frame(w)) || word_frame(w) == spec_frame_idx(d as int) by {
                        assert(word_frame(w) == k);
                    }
                }
                lemma_changes_compose(&ms, old(mem), &prev, spec_frame_idx(d as int), spec_frame_idx(d as int));
                lemma_changes_compose(&ms, &prev, &m1, spec_frame_idx(d as int), spec_frame_idx(d as int));
                lemma_changes_compose(&ms, &m1, &m2, spec_frame_idx(d as int), spec_frame_idx(d as int));
                lemma_changes_any(&ms, &m2, spec_frame_idx(d as int), k);
                assert forall|j: int| 0 <= j < 512 implies #[trigger] m2.entry(new_t, j) == 0 by {
                    lemma_table_word_frame(new_t, j);
                }
            }
        }
        copy_pt(mem, Ghost(ms), src_pt, new_t);
        proof {
            PhysicalMemory::lemma_free_count_same(mem, &m1);
            if !mem.exhausted() {
                let k = spec_frame_idx(new_t as int);
                lemma_not_exhausted_back(&m2, mem);
                lemma_table_word_frame(d, i as int);
                lemma_table_word_frame(new_t, 0);
                assert(changes_within(&prev, &m1, spec_frame_idx(d as int))) by {
                    assert forall|w: int| #[trigger] m1.word(w) != prev.word(w) implies
                        prev.is_free(word_frame(w)) || word_frame(w) == spec_frame_idx(d as int) by {
                        assert(word_frame(w) == k);
                    }
                }
                assert(changes_within(&m2, mem, k)) by {
                    assert forall|w: int| #[trigger] mem.word(w) != m2.word(w) implies
                        m2.is_free(word_frame(w)) || word_frame(w) == k by {
                        assert(new_t / 8 <= w < new_t / 8 + 512);
                    }
                }
                lemma_changes_compose(&prev, &m1, &m2, spec_frame_idx(d as int), spec_frame_idx(d as int));
                lemma_changes_compose(&prev, &m2, mem, spec_frame_idx(d as int), k);
                lemma_changes_compose(old(mem), &prev, mem, spec_frame_idx(d as int), spec_frame_idx(d as int));
                assert forall|j: int| 0 <= j < 512 && j != i implies #[trigger] mem.entry(d, j) == prev.entry(d, j) by {
                    lemma_table_word_frame(d, j);
                }
                lemma_link_bits(new_t, e);
                assert(mem.entry(d, i as int) == link);
                if src_pd_ok(&ms, s) {
                    lemma_pd_prefix_kept(&ms, old(mem), &prev, mem, spec_frame_idx(d as int), s, d, i as int);
                    assert(link == link_entry(new_t, e));
                    assert(pd_entry_copied(&ms, mem, ms.entry(s, i as int), mem.entry(d, i as int)));
                }
            }
        }
        i += 1;
    }
}

/// The copied PDPT entries below `n` stay copied from `a` to `b` when the
/// table at `d` keeps them and the tables below them avoid frame `x`.
proof fn lemma_pdpt_prefix_kept(
    ms: &PhysicalMemory, o: &PhysicalMemory, a: &PhysicalMemory, b: &PhysicalMemory,
    x: int, s: u64, d: u64, n: int,
)
    requires
        changes_within(a, b, x),
        !o.is_free(x),
        forall|k: int| 0 <= k < n ==> pdpt_entry_copied(ms, a, ms.entry(s, k), #[trigger] a.entry(d, k)),
        forall|k: int| 0 <= k < n ==> {
            let f = #[trigger] a.entry(d, k);
            is_present(f) && !is_large(f) ==> o.is_free(spec_frame_idx(entry_addr(f) as int))
                && pd_fresh(o, a, entry_addr(f))
        },
        forall|k: int| 0 <= k < n ==> #[trigger] b.entry(d, k) == a.entry(d, k),
    ensures
        forall|k: int| 0 <= k < n ==> pdpt_entry_copied(ms, b, ms.entry(s, k), #[trigger] b.entry(d, k)),
        forall|k: int| 0 <= k < n ==> {
            let f = #[trigger] b.entry(d, k);
            is_present(f) && !is_large(f) ==> o.is_free(spec_frame_idx(entry_addr(f) as int))
                && pd_fresh(o, b, entry_addr(f))
        },
{
    assert forall|k: int| 0 <= k < n implies {
        &&& pdpt_entry_copied(ms, b, ms.entry(s, k), #[trigger] b.entry(d, k))
        &&& {
            let f = b.entry(d, k);
            is_present(f) && !is_large(f) ==> o.is_free(spec_frame_idx(entry_addr(f) as int))
                && pd_fresh(o, b, entry_addr(f))
        }
    } by {
        let e = ms.entry(s, k);
        let f = a.entry(d, k);
        assert(pdpt_entry_copied(ms, a, e, f));
        crate::bitops::lemma_flag_constants();
        if is_present(e) && !is_large(e) {
            lemma_mask_aligned(f);
            lemma_link_bits(entry_addr(f), e);
            lemma_fresh_avoids(o, a, entry_addr(f), x);
            lemma_pd_kept(ms, a, b, x, entry_addr(e), entry_addr(f));
        } else if is_present(e) {
            lemma_cow_large(e);
        }
    }
}

/// Tables that were free in `o` avoid a frame that was in use there.
proof fn lemma_fresh_avoids(o: &PhysicalMemory, m: &PhysicalMemory, t: u64, x: int)
    requires
        o.is_free(spec_frame_idx(t as int)),
        pd_fresh(o, m, t),
        !o.is_free(x),
    ensures
        pd_avoids(m, t, x),
{
}

/// Fill the zeroed table at `d` with the copy of the PDPT at `s`, taking
/// a zeroed frame for the copy of each PD it links.
#[verifier::rlimit(60)]
fn copy_pdpt(mem: &mut PhysicalMemory, Ghost(ms): Ghost<PhysicalMemory>, s: u64, d: u64)
    requires
        old(mem).wf(),
        s % 4096 == 0,
        d % 4096 == 0,
        !old(mem).exhausted() ==> {
            &&& changes_within(&ms, old(mem), spec_frame_idx(d as int))
            &&& ms.is_free(spec_frame_idx(d as int))
            &&& table_in_use(old(mem), d)
            &&& forall|i: int| 0 <= i < 512 ==> #[trigger] old(mem).entry(d, i) == 0
        },
    ensures
        final(mem).wf(),
        forall|j: int| #[trigger] final(mem).is_free(j) ==> old(mem).is_free(j),
        !final(mem).exhausted() ==> {
            &&& changes_within(old(mem), final(mem), spec_frame_idx(d as int))
            &&& src_pdpt_ok(&ms, s) ==> pdpt_copied(&ms, final(mem), s, d)
            &&& src_pdpt_ok(&ms, s) ==> pdpt_fresh(old(mem), final(mem), d)
        },
        old(mem).free_count() > pdpt_need(&ms, s, 512) && src_pdpt_ok(&ms, s) ==>
            final(mem).free_count() + pdpt_need(&ms, s, 512) == old(mem).free_count(),
{
    let mut i: usize = 0;
    while i < PT_ENTRIES
        invariant
            mem.wf(),
            s % 4096 == 0,
            d % 4096 == 0,
            i <= PT_ENTRIES,
            forall|j: int| #[trigger] mem.is_free(j) ==> old(mem).is_free(j),
            !mem.exhausted() ==> {
                &&& changes_within(&ms, old(mem), spec_frame_idx(d as int))
                &&& ms.is_free(spec_frame_idx(d as int))
                &&& table_in_use(old(mem), d)
                &&& forall|k: int| 0 <= k < 512 ==> #[trigger] old(mem).entry(d, k) == 0
                &&& changes_within(old(mem), mem, spec_frame_idx(d as int))
                &&& forall|k: int| i <= k < 512 ==> #[trigger] mem.entry(d, k) == 0
            },
            old(mem).free_count() > pdpt_need(&ms, s, 512) && src_pdpt_ok(&ms, s) ==>
                mem.free_count() + pdpt_need(&ms, s, i as int) == old(mem).free_count(),
            !mem.exhausted() && src_pdpt_ok(&ms, s) ==> {
                &&& forall|k: int| 0 <= k < i ==> pdpt_entry_copied(&ms, mem, ms.entry(s, k), #[trigger] mem.entry(d, k))
                &&& forall|k: int| 0 <= k < i ==> {
                        let f = #[trigger] mem.entry(d, k);
                        is_present(f) && !is_large(f) ==> old(mem).is_free(spec_frame_idx(entry_addr(f) as int))
                            && pd_fresh(old(mem), mem, entry_addr(f))
                    }
            },
        decreases PT_ENTRIES - i,
    {
        let ghost prev = *mem;
        let e = mem.read_pt_entry(s, i);
        let ghost counted = old(mem).free_count() > pdpt_need(&ms, s, 512) && src_pdpt_ok(&ms, s);
        proof {
            crate::bitops::lemma_flag_constants();
            if counted {
                lemma_pdpt_need_mono(&ms, s, i as int + 1, 512);
                prev.lemma_exhausted_iff_no_free();
            }
            if !prev.exhausted() && src_pdpt_ok(&ms, s) {
                lemma_not_exhausted_back(old(mem), &prev);
                lemma_table_word_frame(d, 0);
                lemma_changes_compose(&ms, old(mem), &prev, spec_frame_idx(d as int), spec_frame_idx(d as int));
                lemma_entry_kept(&ms, &prev, spec_frame_idx(d as int), s, i as int);
            }
        }
        if e & page_flags::PRESENT == 0 {
            proof {
                if !mem.exhausted() && src_pdpt_ok(&ms, s) {
                    assert(mem.entry(d, i as int) == 0);
                    assert(e == ms.entry(s, i as int));
                }
            }
            i += 1;
            continue;
        }
        if e & page_flags::LARGE != 0 {
            let v = (e & !page_flags::WRITABLE) | page_flags::COW;
            proof { lemma_cow_large(e); }
            mem.write_pt_entry(d, i, v);
            proof {
                PhysicalMemory::lemma_free_count_same(mem, &prev);
                if !mem.exhausted() {
                    lemma_table_word_frame(d, i as int);
                    assert(changes_within(&prev, mem, spec_frame_idx(d as int)));
                    assert forall|j: int| 0 <= j < 512 && j != i implies #[trigger] mem.entry(d, j) == prev.entry(d, j) by {
                        lemma_table_word_frame(d, j);
                    }
                    lemma_changes_compose(old(mem), &prev, mem, spec_frame_idx(d as int), spec_frame_idx(d as int));
                    if src_pdpt_ok(&ms, s) {
                        lemma_pdpt_prefix_kept(&ms, old(mem), &prev, mem, spec_frame_idx(d as int), s, d, i as int);
                        lemma_cow_large(e);
                        assert(pdpt_entry_copied(&ms, mem, ms.entry(s, i as int), mem.entry(d, i as int)));
                    }
                }
            }
            i += 1;
            continue;
        }
        proof { lemma_mask_aligned(e); }
        let src_pd = e & ADDR_MASK;
        let new_t = mem.alloc_zeroed_frame();
        let ghost m1 = *mem;
        let link = (new_t & ADDR_MASK) | (e & (page_flags::PRESENT | page_flags::WRITABLE | page_flags::USER_ACCESS));
        mem.write_pt_entry(d, i, link);
        let ghost m2 = *mem;
        proof {
            if !m2.exhausted() {
                let k = spec_frame_idx(new_t as int);
                assert(new_t / 8 == crate::paging::spec_frame_addr(k) / 8);
                lemma_table_word_frame(d, i as int);
                lemma_table_word_frame(new_t, 0);
                assert(changes_within(&prev, &m1, spec_frame_idx(d as int))) by {
                    assert forall|w: int| #[trigger] m1.word(w) != prev.word(w) implies
                        prev.is_free(word_frame(w)) || word_frame(w) == spec_frame_idx(d as int) by {
                        assert(word_frame(w) == k);
                    }
                }
                lemma_changes_compose(&ms, old(mem), &prev, spec_frame_idx(d as int), spec_frame_idx(d as int));
                lemma_changes_compose(&ms, &prev, &m1, spec_frame_idx(d as int), spec_frame_idx(d as int));
                lemma_changes_compose(&ms, &m1, &m2, spec_frame_idx(d as int), spec_frame_idx(d as int));
                lemma_changes_any(&ms, &m2, spec_frame_idx(d as int), k);
                assert forall|j: int| 0 <= j < 512 implies #[trigger] m2.entry(new_t, j) == 0 by {
                    lemma_table_word_frame(new_t, j);
                }
            }
        }
        proof {
            PhysicalMemory::lemma_free_count_same(&m2, &m1);
            if counted {
                assert(e == ms.entry(s, i as int));
                assert(src_pd_ok(&ms, src_pd));
                assert(pdpt_need(&ms, s, i as int + 1) == pdpt_need(&ms, s, i as int) + 1 + pd_need(&ms, src_pd, 512));
            }
        }
        copy_pd(mem, Ghost(ms), src_pd, new_t);
        proof {
            if !mem.exhausted() {
                let k = spec_frame_idx(new_t as int);
                lemma_not_exhausted_back(&m2, mem);
                lemma_table_word_frame(d, i as int);
                lemma_table_word_frame(new_t, 0);
                assert(changes_within(&prev, &m1, spec_frame_idx(d as int))) by {
                    assert forall|w: int| #[trigger] m1.word(w) != prev.word(w) implies
                        prev.is_free(word_frame(w)) || word_frame(w) == spec_frame_idx(d as int) by {
                        assert(word_frame(w) == k);
                    }
                }
                assert(changes_within(&m2, mem, k));
                lemma_changes_compose(&prev, &m1, &m2, spec_frame_idx(d as int), spec_frame_idx(d as int));
                lemma_changes_compose(&prev, &m2, mem, spec_frame_idx(d as int), k);
                lemma_changes_compose(old(mem), &prev, mem, spec_frame_idx(d as int), spec_frame_idx(d as int));
                assert forall|j: int| 0 <= j < 512 && j != i implies #[trigger] mem.entry(d, j) == prev.entry(d, j) by {
                    lemma_table_word_frame(d, j);
                    lemma_entry_kept(&m2, mem, k, d, j);
                }
                lemma_entry_kept(&m2, mem, k, d, i as int);
                lemma_link_bits(new_t, e);
                assert(mem.entry(d, i as int) == link);
                if src_pdpt_ok(&ms, s) {
                    lemma_pdpt_prefix_kept(&ms, old(mem), &prev, mem, spec_frame_idx(d as int), s, d, i as int);
                    assert(link == link_entry(new_t, e));
                    assert(pdpt_entry_copied(&ms, mem, ms.entry(s, i as int), mem.entry(d, i as int)));
                    assert forall|j: int| 0 <= j < 512 implies {
                        let g = #[trigger] mem.entry(new_t, j);
                        is_present(g) && !is_large(g) ==> old(mem).is_free(spec_frame_idx(entry_addr(g) as int))
                    } by {
                        let g = mem.entry(new_t, j);
                        if is_present(g) && !is_large(g) {
                            assert(m2.is_free(spec_frame_idx(entry_addr(g) as int)));
                        }
                    }
                }
            }
        }
        i += 1;
    }
}

/// The copied PML4 entries below `n` stay copied from `a` to `b` when the
/// table at `d` keeps them and the tables below them avoid frame `x`.
proof fn lemma_pml4_prefix_kept(
    ms: &PhysicalMemory, o: &PhysicalMemory, a: &PhysicalMemory, b: &PhysicalMemory,
    x: int, s: u64, d: u64, n: int,
)
    requires
        changes_within(a, b, x),
        !o.is_free(x),
        forall|k: int| 0 <= k < n ==> pml4_entry_copied(ms, a, ms.entry(s, k), #[trigger] a.entry(d, k)),
        forall|k: int| 0 <= k < n ==> {
            let f = #[trigger] a.entry(d, k);
            is_present(f) && !is_large(f) ==> o.is_free(spec_frame_idx(entry_addr(f) as int))
                && pdpt_fresh(o, a, entry_addr(f))
        },
        forall|k: int| 0 <= k < n ==> #[trigger] b.entry(d, k) == a.entry(d, k),
    ensures
        forall|k: int| 0 <= k < n ==> pml4_entry_copied(ms, b, ms.entry(s, k), #[trigger] b.entry(d, k)),
        forall|k: int| 0 <= k < n ==> {
            let f = #[trigger] b.entry(d, k);
            is_present(f) && !is_large(f) ==> o.is_free(spec_frame_idx(entry_addr(f) as int))
                && pdpt_fresh(o, b, entry_addr(f))
        },
{
    assert forall|k: int| 0 <= k < n implies {
        &&& pml4_entry_copied(ms, b, ms.entry(s, k), #[trigger] b.entry(d, k))
        &&& {
            let f = b.entry(d, k);
            is_present(f) && !is_large(f) ==> o.is_free(spec_frame_idx(entry_addr(f) as int))
                && pdpt_fresh(o, b, entry_addr(f))
        }
    } by {
        let e = ms.entry(s, k);
        let f = a.entry(d, k);
        assert(pml4_entry_copied(ms, a, e, f));
        crate::bitops::lemma_flag_constants();
        if is_present(e) {
            lemma_mask_aligned(f);
            lemma_link_bits(entry_addr(f), e);
            lemma_fresh_avoids_pdpt(o, a, entry_addr(f), x);
            lemma_pdpt_kept(ms, a, b, x, entry_addr(e), entry_addr(f));
            let t = entry_addr(f);
            assert forall|q: int| 0 <= q < 512 implies {
                let g = #[trigger] b.entry(t, q);
                is_present(g) && !is_large(g) ==> o.is_free(spec_frame_idx(entry_addr(g) as int)) && pd_fresh(o, b, entry_addr(g))
            } by {
                let g = a.entry(t, q);
                assert(b.entry(t, q) == g);
                if is_present(g) && !is_large(g) {
                    assert(pd_fresh(o, a, entry_addr(g)));
                    let e3 = ms.entry(entry_addr(e), q);
                    assert(pdpt_entry_copied(ms, a, e3, g));
                    if is_present(e3) && !is_large(e3) {
                        lemma_mask_aligned(g);
                        lemma_link_bits(entry_addr(g), e3);
                        lemma_fresh_avoids(o, a, entry_addr(g), x);
                        lemma_pd_kept(ms, a, b, x, entry_addr(e3), entry_addr(g));
                    } else if is_present(e3) {
                        lemma_cow_large(e3);
                    }
                }
            }
        }
    }
}

/// Tables that were free in `o` avoid a frame that was in use there.
proof fn lemma_fresh_avoids_pdpt(o: &PhysicalMemory, m: &PhysicalMemory, t: u64, x: int)
    requires
        o.is_free(spec_frame_idx(t as int)),
        pdpt_fresh(o, m, t),
        !o.is_free(x),
    ensures
        pdpt_avoids(m, t, x),
{
    assert forall|i: int| 0 <= i < 512 implies {
        let f = #[trigger] m.entry(t, i);
        is_present(f) && !is_large(f) ==> pd_avoids(m, entry_addr(f), x)
    } by {
        let f = m.entry(t, i);
        if is_present(f) && !is_large(f) {
            lemma_fresh_avoids(o, m, entry_addr(f), x);
        }
    }
}

/// Fill the zeroed table at `d` with the copy of the PML4 at `s`, taking
/// a zeroed frame for the copy of each PDPT it links.
#[verifier::rlimit(60)]
fn copy_pml4(mem: &mut PhysicalMemory, Ghost(ms): Ghost<PhysicalMemory>, s: u64, d: u64)
    requires
        old(mem).wf(),
        s % 4096 == 0,
        d % 4096 == 0,
        !old(mem).exhausted() ==> {
            &&& changes_within(&ms, old(mem), spec_frame_idx(d as int))
            &&& ms.is_free(spec_frame_idx(d as int))
            &&& table_in_use(old(mem), d)
            &&& forall|i: int| 0 <= i < 512 ==> #[trigger] old(mem).entry(d, i) == 0
        },
    ensures
        final(mem).wf(),
        forall|j: int| #[trigger] final(mem).is_free(j) ==> old(mem).is_free(j),
        !final(mem).exhausted() ==> {
            &&& changes_within(old(mem), final(mem), spec_frame_idx(d as int))
            &&& src_tree_ok(&ms, s) ==> pml4_copied(&ms, final(mem), s, d)
        },
        old(mem).free_count() > pml4_need(&ms, s, 512) && src_tree_ok(&ms, s) ==>
            final(mem).free_count() + pml4_need(&ms, s, 512) == old(mem).free_count(),
{
    let mut i: usize = 0;
    while i < PT_ENTRIES
        invariant
            mem.wf(),
            s % 4096 == 0,
            d % 4096 == 0,
            i <= PT_ENTRIES,
            forall|j: int| #[trigger] mem.is_free(j) ==> old(mem).is_free(j),
            !mem.exhausted() ==> {
                &&& changes_within(&ms, old(mem), spec_frame_idx(d as int))
                &&& ms.is_free(spec_frame_idx(d as int))
                &&& table_in_use(old(mem), d)
                &&& forall|k: int| 0 <= k < 512 ==> #[trigger] old(mem).entry(d, k) == 0
                &&& changes_within(old(mem), mem, spec_frame_idx(d as int))
                &&& forall|k: int| i <= k < 512 ==> #[trigger] mem.entry(d, k) == 0
            },
            old(mem).free_count() > pml4_need(&ms, s, 512) && src_tree_ok(&ms, s) ==>
                mem.free_count() + pml4_need(&ms, s, i as int) == old(mem).free_count(),
            !mem.exhausted() && src_tree_ok(&ms, s) ==> {
                &&& forall|k: int| 0 <= k < i ==> pml4_entry_copied(&ms, mem, ms.entry(s, k), #[trigger] mem.entry(d, k))
                &&& forall|k: int| 0 <= k < i ==> {
                        let f = #[trigger] mem.entry(d, k);
                        is_present(f) && !is_large(f) ==> old(mem).is_free(spec_frame_idx(entry_addr(f) as int))
                            && pdpt_fresh(old(mem), mem, entry_addr(f))
                    }
            },
        decreases PT_ENTRIES - i,
    {
        let ghost prev = *mem;
        let e = mem.read_pt_entry(s, i);
        let ghost counted = old(mem).free_count() > pml4_need(&ms, s, 512) && src_tree_ok(&ms, s);
        proof {
            crate::bitops::lemma_flag_constants();
            if counted {
                lemma_pml4_need_mono(&ms, s, i as int + 1, 512);
                prev.lemma_exhausted_iff_no_free();
            }
            if !prev.exhausted() && src_tree_ok(&ms, s) {
                lemma_not_exhausted_back(old(mem), &prev);
                lemma_table_word_frame(d, 0);
                lemma_changes_compose(&ms, old(mem), &prev, spec_frame_idx(d as int), spec_frame_idx(d as int));
                lemma_entry_kept(&ms, &prev, spec_frame_idx(d as int), s, i as int);
            }
        }
        if e & page_flags::PRESENT == 0 {
            proof {
                if !mem.exhausted() && src_tree_ok(&ms, s) {
                    assert(mem.entry(d, i as int) == 0);
                    assert(e == ms.entry(s, i as int));
                }
            }
            i += 1;
            continue;
        }
        proof { lemma_mask_aligned(e); }
        let src_pdpt = e & ADDR_MASK;
        let new_t = mem.alloc_zeroed_frame();
        let ghost m1 = *mem;
        let link = (new_t & ADDR_MASK) | (e & (page_flags::PRESENT | page_flags::WRITABLE | page_flags::USER_ACCESS));
        mem.write_pt_entry(d, i, link);
        let ghost m2 = *mem;
        proof {
            if !m2.exhausted() {
                let k = spec_frame_idx(new_t as int);
                assert(new_t / 8 == crate::paging::spec_frame_addr(k) / 8);
                lemma_table_word_frame(d, i as int);
                lemma_table_word_frame(new_t, 0);
                assert(changes_within(&prev, &m1, spec_frame_idx(d as int))) by {
                    assert forall|w: int| #[trigger] m1.word(w) != prev.word(w) implies
                        prev.is_free(word_frame(w)) || word_frame(w) == spec_frame_idx(d as int) by {
                        assert(word_frame(w) == k);
                    }
                }
                lemma_changes_compose(&ms, old(mem), &prev, spec_frame_idx(d as int), spec_frame_idx(d as int));
                lemma_changes_compose(&ms, &prev, &m1, spec_frame_idx(d as int), spec_frame_idx(d as int));
                lemma_changes_compose(&ms, &m1, &m2, spec_frame_idx(d as int), spec_frame_idx(d as int));
                lemma_changes_any(&ms, &m2, spec_frame_idx(d as int), k);
                assert forall|j: int| 0 <= j < 512 implies #[trigger] m2.entry(new_t, j) == 0 by {
                    lemma_table_word_frame(new_t, j);
                }
            }
        }
        proof {
            PhysicalMemory::lemma_free_count_same(&m2, &m1);
            if counted {
                assert(e == ms.entry(s, i as int));
                assert(src_pdpt_ok(&ms, src_pdpt));
                assert(pml4_need(&ms, s, i as int + 1) == pml4_need(&ms, s, i as int) + 1 + pdpt_need(&ms, src_pdpt, 512));
            }
        }
        copy_pdpt(mem, Ghost(ms), src_pdpt, new_t);
        proof {
            if !mem.exhausted() {
                let k = spec_frame_idx(new_t as int);
                lemma_not_exhausted_back(&m2, mem);
                lemma_table_word_frame(d, i as int);
                lemma_table_word_frame(new_t, 0);
                assert(changes_within(&prev, &m1, spec_frame_idx(d as int))) by {
                    assert forall|w: int| #[trigger] m1.word(w) != prev.word(w) implies
                        prev.is_free(word_frame(w)) || word_frame(w) == spec_frame_idx(d as int) by {
                        assert(word_frame(w) == k);
                    }
                }
                assert(changes_within(&m2, mem, k));
                lemma_changes_compose(&prev, &m1, &m2, spec_frame_idx(d as int), spec_frame_idx(d as int));
                lemma_changes_compose(&prev, &m2, mem, spec_frame_idx(d as int), k);
                lemma_changes_compose(old(mem), &prev, mem, spec_frame_idx(d as int), spec_frame_idx(d as int));
                assert forall|j: int| 0 <= j < 512 && j != i implies #[trigger] mem.entry(d, j) == prev.entry(d, j) by {
                    lemma_table_word_frame(d, j);
                    lemma_entry_kept(&m2, mem, k, d, j);
                }
                lemma_entry_kept(&m2, mem, k, d, i as int);
                lemma_link_bits(new_t, e);
                assert(mem.entry(d, i as int) == link);
                if src_tree_ok(&ms, s) {
                    lemma_pml4_prefix_kept(&ms, old(mem), &prev, mem, spec_frame_idx(d as int), s, d, i as int);
                    assert(link == link_entry(new_t, e));
                    assert(pml4_entry_copied(&ms, mem, ms.entry(s, i as int), mem.entry(d, i as int)));
                    assert forall|j: int| 0 <= j < 512 implies {
                        let g = #[trigger] mem.entry(new_t, j);
                        is_present(g) && !is_large(g) ==> old(mem).is_free(spec_frame_idx(entry_addr(g) as int))
                            && pd_fresh(old(mem), mem, entry_addr(g))
                    } by {
                        let g = mem.entry(new_t, j);
                        if is_present(g) && !is_large(g) {
                            assert(m2.is_free(spec_frame_idx(entry_addr(g) as int)));
                            assert forall|q: int| 0 <= q < 512 implies {
                                let h = #[trigger] mem.entry(entry_addr(g), q);
                                is_present(h) && !is_large(h) ==> old(mem).is_free(spec_frame_idx(entry_addr(h) as int))
                            } by {
                                let h = mem.entry(entry_addr(g), q);
                                if is_present(h) && !is_large(h) {
                                    assert(m2.is_free(spec_frame_idx(entry_addr(h) as int)));
                                }
                            }
                        }
                    }
                }
            }
        }
        i += 1;
    }
}

/// From `a` to `b` no frame became free, and RAM changed only in frames
/// that were free in `a`.
pub open spec fn only_free_changed(a: &PhysicalMemory, b: &PhysicalMemory) -> bool {
    &&& forall|j: int| #[trigger] b.is_free(j) ==> a.is_free(j)
    &&& forall|w: int| #[trigger] b.word(w) != a.word(w) ==> a.is_free(word_frame(w))
}

/// Copy the tree rooted at `src_pml4` as `ms` held it, memory having
/// changed since `ms` only in frames that were free then.
pub(crate) fn copy_tree_since(mem: &mut PhysicalMemory, Ghost(ms): Ghost<PhysicalMemory>, src_pml4: u64) -> (dst: u64)
    requires
        old(mem).wf(),
        src_pml4 % 4096 == 0,
        !old(mem).exhausted() ==> only_free_changed(&ms, old(mem)),
    ensures
        final(mem).wf(),
        forall|j: int| #[trigger] final(mem).is_free(j) ==> old(mem).is_free(j),
        !final(mem).exhausted() ==> {
            &&& old(mem).lowest_free(spec_frame_idx(dst as int))
            &&& dst == crate::paging::spec_frame_addr(spec_frame_idx(dst as int))
            &&& only_free_changed(old(mem), final(mem))
            &&& only_free_changed(&ms, final(mem))
            &&& src_tree_ok(&ms, src_pml4) ==> pml4_copied(&ms, final(mem), src_pml4, dst)
        },
        old(mem).free_count() > tree_tables(&ms, src_pml4) && src_tree_ok(&ms, src_pml4) ==>
            final(mem).free_count() + tree_tables(&ms, src_pml4) == old(mem).free_count(),
{
    let ghost m0 = *mem;
    let dst = mem.alloc_zeroed_frame();
    let ghost m1 = *mem;
    proof {
        if !m1.exhausted() {
            lemma_not_exhausted_back(&m0, &m1);
            let k = spec_frame_idx(dst as int);
            assert(dst / 8 == crate::paging::spec_frame_addr(k) / 8);
            lemma_table_word_frame(dst, 0);
            assert(changes_within(&m0, &m1, k)) by {
                assert forall|w: int| #[trigger] m1.word(w) != m0.word(w) implies
                    m0.is_free(word_frame(w)) || word_frame(w) == k by {
                    assert(word_frame(w) == k);
                }
            }
            assert(changes_within(&ms, &m0, k));
            lemma_changes_compose(&ms, &m0, &m1, k, k);
            assert forall|j: int| 0 <= j < 512 implies #[trigger] m1.entry(dst, j) == 0 by {
                lemma_table_word_frame(dst, j);
            }
        }
    }
    proof {
        if old(mem).free_count() > tree_tables(&ms, src_pml4) {
            m0.lemma_exhausted_iff_no_free();
        }
    }
    copy_pml4(mem, Ghost(ms), src_pml4, dst);
    proof {
        if !mem.exhausted() {
            let k = spec_frame_idx(dst as int);
            lemma_not_exhausted_back(&m1, mem);
            lemma_not_exhausted_back(&m0, &m1);
            assert(changes_within(&m0, &m1, k)) by {
                assert forall|w: int| #[trigger] m1.word(w) != m0.word(w) implies
                    m0.is_free(word_frame(w)) || word_frame(w) == k by {
                    assert(dst / 8 == crate::paging::spec_frame_addr(k) / 8);
                }
            }
            lemma_changes_compose(&m0, &m1, mem, k, k);
            assert(changes_within(&ms, &m0, k));
            lemma_changes_compose(&ms, &m0, mem, k, k);
        }
    }
    dst
}

/// Mark the page-table tree rooted at `src_pml4` copy-on-write in place
/// (`cow_mark::mark_tree_cow`), then copy it for a forked process and
/// return the new PML4 (see the module's description of the copy), so that
/// parent and child both map their user pages read-only and COW. Every
/// table of the copy is a zeroed frame taken from the allocator, the PML4
/// first; a failed allocation is not checked for, as the copy goes on.
///
/// With more free frames at the start than the copy has tables
/// (`tree_tables`) and every table of the source tree in use, memory is not
/// exhausted at the end and exactly that many frames were taken.
///
/// When memory is not exhausted at the end (so that no allocation
/// failed), the new PML4 is the frame that was lowest free, and RAM changed
/// only in frames that were free at the start and by entries being marked
/// COW. When every table of the source tree was in use, the source tree is
/// marked (`pml4_marked`) and the new tree is the copy of it as it now
/// stands. No frame is freed.
pub fn copy_page_table_cow(mem: &mut PhysicalMemory, src_pml4: u64) -> (dst: u64)
    requires
        old(mem).wf(),
        src_pml4 % 4096 == 0,
    ensures
        final(mem).wf(),
        forall|j: int| #[trigger] final(mem).is_free(j) ==> old(mem).is_free(j),
        !final(mem).exhausted() ==> {
            &&& old(mem).lowest_free(spec_frame_idx(dst as int))
            &&& dst == crate::paging::spec_frame_addr(spec_frame_idx(dst as int))
            &&& forall|w: int| #[trigger] final(mem).word(w) != old(mem).word(w) ==> old(mem).is_free(word_frame(w))
                    || (is_present(old(mem).word(w)) && final(mem).word(w) == cow_entry(old(mem).word(w)))
            &&& src_tree_ok(old(mem), src_pml4) ==> {
                &&& pml4_marked(old(mem), final(mem), src_pml4, 512)
                &&& pml4_copied(final(mem), final(mem), src_pml4, dst)
            }
        },
        old(mem).free_count() > tree_tables(old(mem), src_pml4) && src_tree_ok(old(mem), src_pml4) ==> {
            &&& !final(mem).exhausted()
            &&& final(mem).free_count() + tree_tables(old(mem), src_pml4) == old(mem).free_count()
        },
{
    let ghost m0 = *mem;
    mark_tree_cow(mem, src_pml4);
    let ghost m1 = *mem;
    proof {
        assert forall|j: int| #[trigger] m1.is_free(j) == m0.is_free(j) by {}
        PhysicalMemory::lemma_free_count_same(&m1, &m0);
        lemma_marks_keep_tables(&m0, &m1, src_pml4);
        if src_tree_ok(&m0, src_pml4) {
            lemma_marks_keep_tree_ok(&m0, &m1, src_pml4);
        }
    }
    let dst = copy_tree_since(mem, Ghost(m1), src_pml4);
    proof {
        if m0.free_count() > tree_tables(&m0, src_pml4) && src_tree_ok(&m0, src_pml4) {
            mem.lemma_exhausted_iff_no_free();
        }
        if !mem.exhausted() {
            assert forall|j: int| #[trigger] m1.is_free(j) == m0.is_free(j) by {}
            let k = spec_frame_idx(dst as int);
            assert(m1.lowest_free(k));
            assert forall|j: int| 0 <= j < k implies !#[trigger] m0.is_free(j) by {
                assert(!m1.is_free(j));
            }
            assert(m0.is_free(k));
            assert forall|w: int| #[trigger] mem.word(w) != m0.word(w) implies m0.is_free(word_frame(w))
                || (is_present(m0.word(w)) && mem.word(w) == cow_entry(m0.word(w))) by {
                if mem.word(w) != m1.word(w) {
                    assert(m1.is_free(word_frame(w)));
                }
            }
            if src_tree_ok(&m0, src_pml4) {
                lemma_marks_keep_tree_ok(&m0, &m1, src_pml4);
                lemma_tree_same(&m1, mem, src_pml4);
                lemma_copied_same_source(&m1, mem, mem, src_pml4, dst);
                lemma_marked_survive(&m0, &m1, mem, src_pml4);
            }
        }
    }
    dst
}

/// In a copy, a user page of the source is shared copy-on-write: the
/// copy's walk for its address ends in the COW form of the source's leaf,
/// which maps the same frame without the writable bit, so that a write to
/// it in the copy is a copy-on-write fault (see `paging::cow_leaf`).
pub proof fn law_copy_shares_user_pages(ms: &PhysicalMemory, m: &PhysicalMemory, s: u64, d: u64, va: u64)
    requires
        pml4_copied(ms, m, s, d),
        ({
            let e4 = ms.entry(s, pml4_idx(va) as int);
            let e3 = ms.entry(entry_addr(e4), pdpt_idx(va) as int);
            let e2 = ms.entry(entry_addr(e3), pd_idx(va) as int);
            let e1 = ms.entry(entry_addr(e2), pt_idx(va) as int);
            &&& is_present(e4)
            &&& is_present(e3) && !is_large(e3)
            &&& is_present(e2) && !is_large(e2)
            &&& is_present(e1) && e1 & 0x4u64 != 0
        }),
    ensures
        ({
            let e4 = ms.entry(s, pml4_idx(va) as int);
            let e3 = ms.entry(entry_addr(e4), pdpt_idx(va) as int);
            let e2 = ms.entry(entry_addr(e3), pd_idx(va) as int);
            let e1 = ms.entry(entry_addr(e2), pt_idx(va) as int);
            &&& cow_leaf(m, d, va) matches Some((t, f)) && f == cow_entry(e1)
            &&& entry_addr(cow_entry(e1)) == entry_addr(e1)
            &&& cow_entry(e1) & 0x2u64 == 0
        }),
{
    lemma_index_bound(va, 39);
    lemma_index_bound(va, 30);
    lemma_index_bound(va, 21);
    lemma_index_bound(va, 12);
    let i4 = pml4_idx(va) as int;
    let i3 = pdpt_idx(va) as int;
    let i2 = pd_idx(va) as int;
    let i1 = pt_idx(va) as int;
    let e4 = ms.entry(s, i4);
    let f4 = m.entry(d, i4);
    assert(pml4_entry_copied(ms, m, e4, f4));
    lemma_mask_aligned(f4);
    lemma_link_bits(entry_addr(f4), e4);
    let e3 = ms.entry(entry_addr(e4), i3);
    let f3 = m.entry(entry_addr(f4), i3);
    assert(pdpt_entry_copied(ms, m, e3, f3));
    lemma_mask_aligned(f3);
    lemma_link_bits(entry_addr(f3), e3);
    let e2 = ms.entry(entry_addr(e3), i2);
    let f2 = m.entry(entry_addr(f3), i2);
    assert(pd_entry_copied(ms, m, e2, f2));
    lemma_mask_aligned(f2);
    lemma_link_bits(entry_addr(f2), e2);
    let e1 = ms.entry(entry_addr(e2), i1);
    assert(m.entry(entry_addr(f2), i1) == leaf_copy(e1));
    assert({
        &&& ((e1 & 0x1u64) != 0 ==> ((e1 & 0xFFFF_FFFF_FFFF_FFFDu64) | 0x200u64) & 0x1u64 != 0)
        &&& ((e1 & 0xFFFF_FFFF_FFFF_FFFDu64) | 0x200u64) & 0x200u64 != 0
        &&& ((e1 & 0xFFFF_FFFF_FFFF_FFFDu64) | 0x200u64) & 0x000F_FFFF_FFFF_F000u64 == e1 & 0x000F_FFFF_FFFF_F000u64
        &&& ((e1 & 0xFFFF_FFFF_FFFF_FFFDu64) | 0x200u64) & 0x2u64 == 0
    }) by (bit_vector);
}

} // verus!
