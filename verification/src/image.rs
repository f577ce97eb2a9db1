//! What a loaded executable image looks like in the address space: every
//! page of every LOAD segment mapped to a frame of its own that holds the
//! page's bytes, and the invariant that the loader keeps while it maps
//! them one after the other into a user space that was empty.

use vstd::prelude::*;
use crate::elf::{elf_phnum, ph_is_load, ph_vaddr, ph_flags, ph_file_offset, ph_file_size, seg_start, seg_end,
    seg_pages, segments_fit, page_byte, segment_page_flags, walk_frame, ph_mem_size, lemma_segment_bounds};
use crate::elf::page_loaded;
use crate::paging::{PhysicalMemory, valid_path, path_present, leaf_entry, entry_addr, is_present, table_in_use,
    spec_frame_addr, spec_frame_idx, pml4_idx, pdpt_idx, pd_idx, pt_idx, word_frame, lemma_table_word_frame,
    lemma_index_bound, lemma_mask_aligned, lemma_zero_entry_absent, map_changes_only, map_fresh_zero, map_tables_origin, leaf_word, upper_walk_word};

verus! {

/// Virtual address of page `p` of segment `i` of image `d`.
pub open spec fn seg_page_va(d: Seq<u8>, i: int, p: int) -> u64 {
    (seg_start(d, i) + p * 4096) as u64
}

/// Page `p` of segment `i` is a page that loading `d` maps.
pub open spec fn is_seg_page(d: Seq<u8>, i: int, p: int) -> bool {
    &&& 0 <= i < elf_phnum(d)
    &&& ph_is_load(d, i)
    &&& 0 <= p < seg_pages(d, i)
}

/// Page `p` of segment `i` of `d` is mapped in the address space rooted at
/// `pml4` in `m`: its walk is present and valid, and its leaf maps, with
/// the flags of its segment, a frame holding its bytes (see `page_byte`).
pub open spec fn page_in_place(m: &PhysicalMemory, pml4: u64, d: Seq<u8>, i: int, p: int) -> bool {
    let va = seg_page_va(d, i, p);
    let frame = walk_frame(m, pml4, va, 0);
    &&& path_present(m, pml4, va)
    &&& valid_path(m, pml4, va)
    &&& leaf_entry(m, pml4, va) == frame | segment_page_flags(ph_flags(d, i) & 2 != 0)
    &&& frame == spec_frame_addr(spec_frame_idx(frame as int))
    &&& forall|j: int| 0 <= j < 4096 ==> #[trigger] m.byte(frame + j)
            == page_byte(d, va, ph_vaddr(d, i), ph_file_offset(d, i), ph_file_size(d, i), j)
}

/// Image `d` can be loaded into the address space rooted at `pml4` in `m`
/// page by page without one page disturbing another: the PML4 is in use,
/// the LOAD segments lie in the lower half of the address space and share
/// no page, and the PML4 has no entry yet where their pages go.
pub open spec fn image_fits(d: Seq<u8>, m: &PhysicalMemory, pml4: u64) -> bool {
    &&& table_in_use(m, pml4)
    &&& segments_fit(d)
    &&& forall|i: int| 0 <= i < elf_phnum(d) && #[trigger] ph_is_load(d, i) ==> seg_end(d, i) <= 0x0000_8000_0000_0000u64
    &&& forall|i: int, k: int| 0 <= i < elf_phnum(d) && 0 <= k < elf_phnum(d) && i != k
            && #[trigger] ph_is_load(d, i) && #[trigger] ph_is_load(d, k)
            ==> seg_end(d, i) <= seg_start(d, k) || seg_end(d, k) <= seg_start(d, i)
    &&& forall|i: int, p: int| #[trigger] is_seg_page(d, i, p) ==> !is_present(m.entry(pml4, pml4_idx(seg_page_va(d, i, p)) as int))
}

/// Two addresses share the PML4 index (level 3), the PDPT index too
/// (level 2), the PD index too (level 1), or all four indices (level 0).
pub open spec fn same_prefix(a: u64, b: u64, level: int) -> bool {
    &&& pml4_idx(a) == pml4_idx(b)
    &&& level <= 2 ==> pdpt_idx(a) == pdpt_idx(b)
    &&& level <= 1 ==> pd_idx(a) == pd_idx(b)
    &&& level <= 0 ==> pt_idx(a) == pt_idx(b)
}

/// Distinct page-aligned addresses of the lower half differ in one of the
/// four indices of their walks.
pub proof fn lemma_distinct_indices(a: u64, b: u64)
    requires
        a < 0x0000_8000_0000_0000u64,
        b < 0x0000_8000_0000_0000u64,
        a % 4096 == 0,
        b % 4096 == 0,
        a != b,
    ensures
        !same_prefix(a, b, 0),
{
    assert(a & 0xFFFu64 == 0 && b & 0xFFFu64 == 0) by (bit_vector)
        requires a % 4096 == 0, b % 4096 == 0;
    assert(!(((a >> 39u64) & 0x1FFu64) == ((b >> 39u64) & 0x1FFu64) && ((a >> 30u64) & 0x1FFu64) == ((b >> 30u64) & 0x1FFu64)
        && ((a >> 21u64) & 0x1FFu64) == ((b >> 21u64) & 0x1FFu64) && ((a >> 12u64) & 0x1FFu64) == ((b >> 12u64) & 0x1FFu64)))
        by (bit_vector)
        requires
            a < 0x0000_8000_0000_0000u64,
            b < 0x0000_8000_0000_0000u64,
            a & 0xFFFu64 == 0,
            b & 0xFFFu64 == 0,
            a != b;
}

/// A page of a LOAD segment lies inside the segment's pages, is
/// page-aligned, and lies in the lower half when the image fits.
pub proof fn lemma_seg_page_bounds(d: Seq<u8>, m: &PhysicalMemory, pml4: u64, i: int, p: int)
    requires
        image_fits(d, m, pml4),
        is_seg_page(d, i, p),
    ensures
        seg_start(d, i) <= seg_page_va(d, i, p),
        seg_page_va(d, i, p) + 4096 <= seg_end(d, i),
        seg_page_va(d, i, p) % 4096 == 0,
        seg_page_va(d, i, p) < 0x0000_8000_0000_0000u64,
{
    lemma_segment_bounds(ph_vaddr(d, i), ph_mem_size(d, i));
    let s = seg_start(d, i) as int;
    let e = seg_end(d, i) as int;
    let n = (e - s) / 4096;
    assert(n * 4096 == e - s);
    assert(p * 4096 + 4096 <= n * 4096) by (nonlinear_arith)
        requires p < n;
    assert(seg_end(d, i) <= 0x0000_8000_0000_0000u64);
}

/// Distinct pages of the image have distinct addresses when it fits.
pub proof fn lemma_seg_pages_distinct(d: Seq<u8>, m: &PhysicalMemory, pml4: u64, i: int, p: int, k: int, q: int)
    requires
        image_fits(d, m, pml4),
        is_seg_page(d, i, p),
        is_seg_page(d, k, q),
        i != k || p != q,
    ensures
        seg_page_va(d, i, p) != seg_page_va(d, k, q),
        !same_prefix(seg_page_va(d, i, p), seg_page_va(d, k, q), 0),
{
    lemma_seg_page_bounds(d, m, pml4, i, p);
    lemma_seg_page_bounds(d, m, pml4, k, q);
    if i != k {
        assert(seg_end(d, i) <= seg_start(d, k) || seg_end(d, k) <= seg_start(d, i));
    }
    lemma_distinct_indices(seg_page_va(d, i, p), seg_page_va(d, k, q));
}

/// Page `p` of segment `k` comes before page `q` of segment `i` in loading
/// order: an earlier segment, or an earlier page of the same one.
pub open spec fn loaded_before(d: Seq<u8>, i: int, q: int, k: int, p: int) -> bool {
    is_seg_page(d, k, p) && (k < i || (k == i && p < q))
}

/// Some page loaded before page `q` of segment `i` shares the index
/// prefix of `a` at `level` (see `same_prefix`).
pub open spec fn prefix_loaded(d: Seq<u8>, i: int, q: int, a: u64, level: int) -> bool {
    exists|k: int, p: int| #[trigger] loaded_before(d, i, q, k, p) && same_prefix(seg_page_va(d, k, p), a, level)
}

/// Frame `f` was free in `m0` and is in use in `m`.
pub open spec fn frame_taken(m0: &PhysicalMemory, m: &PhysicalMemory, f: u64) -> bool {
    &&& f == spec_frame_addr(spec_frame_idx(f as int))
    &&& m0.is_free(spec_frame_idx(f as int))
    &&& !m.is_free(spec_frame_idx(f as int))
}

/// The pages loaded before page `q` of segment `i` are in place in `m`.
#[verifier::opaque]
pub open spec fn inv_in_place(m: &PhysicalMemory, pml4: u64, d: Seq<u8>, i: int, q: int) -> bool {
    forall|k: int, p: int| #[trigger] loaded_before(d, i, q, k, p) ==> page_in_place(m, pml4, d, k, p)
}

/// The tables and frames of the pages loaded so far were free in `m0` and
/// are in use in `m`.
#[verifier::opaque]
pub open spec fn inv_taken(m0: &PhysicalMemory, m: &PhysicalMemory, pml4: u64, d: Seq<u8>, i: int, q: int) -> bool {
    forall|k: int, p: int, l: int| loaded_before(d, i, q, k, p) && 0 <= l <= 3 ==>
        frame_taken(m0, m, #[trigger] walk_frame(m, pml4, seg_page_va(d, k, p), l))
}

/// Two tables or frames of loaded pages are one frame only at the same
/// level, for pages that share the indices above it.
#[verifier::opaque]
pub open spec fn inv_roles(m: &PhysicalMemory, pml4: u64, d: Seq<u8>, i: int, q: int) -> bool {
    forall|k: int, p: int, k2: int, p2: int, l: int, l2: int|
        loaded_before(d, i, q, k, p) && loaded_before(d, i, q, k2, p2) && 0 <= l <= 3 && 0 <= l2 <= 3
        && #[trigger] walk_frame(m, pml4, seg_page_va(d, k, p), l) == #[trigger] walk_frame(m, pml4, seg_page_va(d, k2, p2), l2)
        ==> l == l2 && same_prefix(seg_page_va(d, k, p), seg_page_va(d, k2, p2), l)
}

/// A present PML4 entry on the walk of an image page was set for a loaded
/// page with the same PML4 index.
#[verifier::opaque]
pub open spec fn inv_top(m: &PhysicalMemory, pml4: u64, d: Seq<u8>, i: int, q: int) -> bool {
    forall|k: int, p: int| #[trigger] is_seg_page(d, k, p)
        && is_present(m.entry(pml4, pml4_idx(seg_page_va(d, k, p)) as int)) ==> prefix_loaded(d, i, q, seg_page_va(d, k, p), 3)
}

/// A present entry of a loaded page's PDPT (`level` 3) or PD (`level` 2)
/// on the walk of an image page was set for a loaded page sharing the
/// indices down to it.
#[verifier::opaque]
pub open spec fn inv_inner(m: &PhysicalMemory, pml4: u64, d: Seq<u8>, i: int, q: int, level: int) -> bool {
    forall|k: int, p: int, k2: int, p2: int| loaded_before(d, i, q, k, p) && #[trigger] is_seg_page(d, k2, p2)
        && same_prefix(seg_page_va(d, k, p), seg_page_va(d, k2, p2), level)
        && is_present(m.entry(#[trigger] walk_frame(m, pml4, seg_page_va(d, k, p), level),
            (if level == 3 { pdpt_idx(seg_page_va(d, k2, p2)) } else { pd_idx(seg_page_va(d, k2, p2)) }) as int))
        ==> prefix_loaded(d, i, q, seg_page_va(d, k2, p2), level - 1)
}

/// What loading image `d` from memory `m0` into the address space rooted
/// at `pml4` keeps up to page `q` of segment `i`, in memory `m`: the pages
/// loaded so far are in place; their tables and frames were taken from
/// the free frames; two of them are one frame only for pages that share
/// the indices above that level; and each present entry on the walk of an
/// image page, in the PML4 or in the loaded tables, was set for a loaded
/// page with that prefix.
pub open spec fn loader_inv(m0: &PhysicalMemory, m: &PhysicalMemory, pml4: u64, d: Seq<u8>, i: int, q: int) -> bool {
    &&& inv_in_place(m, pml4, d, i, q)
    &&& inv_taken(m0, m, pml4, d, i, q)
    &&& inv_roles(m, pml4, d, i, q)
    &&& inv_top(m, pml4, d, i, q)
    &&& inv_inner(m, pml4, d, i, q, 3)
    &&& inv_inner(m, pml4, d, i, q, 2)
}

proof fn lemma_use_in_place(m: &PhysicalMemory, pml4: u64, d: Seq<u8>, i: int, q: int, k: int, p: int)
    requires
        inv_in_place(m, pml4, d, i, q),
        loaded_before(d, i, q, k, p),
    ensures
        page_in_place(m, pml4, d, k, p),
{
    reveal(inv_in_place);
}

proof fn lemma_use_taken(m0: &PhysicalMemory, m: &PhysicalMemory, pml4: u64, d: Seq<u8>, i: int, q: int, k: int, p: int, l: int)
    requires
        inv_taken(m0, m, pml4, d, i, q),
        loaded_before(d, i, q, k, p),
        0 <= l <= 3,
    ensures
        frame_taken(m0, m, walk_frame(m, pml4, seg_page_va(d, k, p), l)),
{
    reveal(inv_taken);
}

proof fn lemma_use_roles(m: &PhysicalMemory, pml4: u64, d: Seq<u8>, i: int, q: int, k: int, p: int, k2: int, p2: int, l: int, l2: int)
    requires
        inv_roles(m, pml4, d, i, q),
        loaded_before(d, i, q, k, p),
        loaded_before(d, i, q, k2, p2),
        0 <= l <= 3,
        0 <= l2 <= 3,
        walk_frame(m, pml4, seg_page_va(d, k, p), l) == walk_frame(m, pml4, seg_page_va(d, k2, p2), l2),
    ensures
        l == l2,
        same_prefix(seg_page_va(d, k, p), seg_page_va(d, k2, p2), l),
{
    reveal(inv_roles);
}

proof fn lemma_use_top(m: &PhysicalMemory, pml4: u64, d: Seq<u8>, i: int, q: int, k: int, p: int)
    requires
        inv_top(m, pml4, d, i, q),
        is_seg_page(d, k, p),
        is_present(m.entry(pml4, pml4_idx(seg_page_va(d, k, p)) as int)),
    ensures
        prefix_loaded(d, i, q, seg_page_va(d, k, p), 3),
{
    reveal(inv_top);
}

proof fn lemma_use_inner(m: &PhysicalMemory, pml4: u64, d: Seq<u8>, i: int, q: int, level: int, k: int, p: int, k2: int, p2: int)
    requires
        inv_inner(m, pml4, d, i, q, level),
        loaded_before(d, i, q, k, p),
        is_seg_page(d, k2, p2),
        same_prefix(seg_page_va(d, k, p), seg_page_va(d, k2, p2), level),
        is_present(m.entry(walk_frame(m, pml4, seg_page_va(d, k, p), level),
            (if level == 3 { pdpt_idx(seg_page_va(d, k2, p2)) } else { pd_idx(seg_page_va(d, k2, p2)) }) as int)),
    ensures
        prefix_loaded(d, i, q, seg_page_va(d, k2, p2), level - 1),
{
    reveal(inv_inner);
}

/// Nothing is loaded yet: the invariant holds at the start.
pub proof fn lemma_loader_inv_start(m0: &PhysicalMemory, pml4: u64, d: Seq<u8>)
    requires
        image_fits(d, m0, pml4),
    ensures
        loader_inv(m0, m0, pml4, d, 0, 0),
{
    reveal(inv_in_place);
    reveal(inv_taken);
    reveal(inv_roles);
    reveal(inv_top);
    reveal(inv_inner);
}

/// While the invariant holds, the walk for the next page is valid: each
/// present entry on it leads to a table of a loaded page.
pub proof fn lemma_next_walk_valid(m0: &PhysicalMemory, m: &PhysicalMemory, pml4: u64, d: Seq<u8>, i: int, q: int)
    requires
        image_fits(d, m0, pml4),
        loader_inv(m0, m, pml4, d, i, q),
        is_seg_page(d, i, q),
        forall|j: int| #[trigger] m.is_free(j) ==> m0.is_free(j),
    ensures
        valid_path(m, pml4, seg_page_va(d, i, q)),
{
    let a = seg_page_va(d, i, q);
    let e4 = m.entry(pml4, pml4_idx(a) as int);
    assert(table_in_use(m, pml4));
    if is_present(e4) {
        lemma_use_top(m, pml4, d, i, q, i, q);
        let (k, p) = choose|k: int, p: int| #[trigger] loaded_before(d, i, q, k, p) && same_prefix(seg_page_va(d, k, p), a, 3);
        let b = seg_page_va(d, k, p);
        lemma_use_in_place(m, pml4, d, i, q, k, p);
        let t3 = entry_addr(e4);
        assert(walk_frame(m, pml4, b, 3) == t3);
        let e3 = m.entry(t3, pdpt_idx(a) as int);
        if is_present(e3) {
            lemma_use_inner(m, pml4, d, i, q, 3, k, p, i, q);
            let (k2, p2) = choose|k2: int, p2: int| #[trigger] loaded_before(d, i, q, k2, p2) && same_prefix(seg_page_va(d, k2, p2), a, 2);
            let b2 = seg_page_va(d, k2, p2);
            lemma_use_in_place(m, pml4, d, i, q, k2, p2);
            let t2 = entry_addr(e3);
            assert(walk_frame(m, pml4, b2, 3) == t3);
            assert(walk_frame(m, pml4, b2, 2) == t2);
            let e2 = m.entry(t2, pd_idx(a) as int);
            if is_present(e2) {
                lemma_use_inner(m, pml4, d, i, q, 2, k2, p2, i, q);
                let (k3, p3) = choose|k3: int, p3: int| #[trigger] loaded_before(d, i, q, k3, p3) && same_prefix(seg_page_va(d, k3, p3), a, 1);
                let b3 = seg_page_va(d, k3, p3);
                lemma_use_in_place(m, pml4, d, i, q, k3, p3);
                assert(walk_frame(m, pml4, b3, 3) == t3);
                assert(walk_frame(m, pml4, b3, 2) == t2);
                assert(walk_frame(m, pml4, b3, 1) == entry_addr(e2));
            }
        }
    }
}

/// The context of one loading step: the invariant held in `mb` up to page
/// `q` of segment `i`, and `ma` is `mb` after that page was loaded.
pub open spec fn step_ctx(m0: &PhysicalMemory, mb: &PhysicalMemory, ma: &PhysicalMemory, pml4: u64, d: Seq<u8>, i: int, q: int) -> bool {
    &&& image_fits(d, m0, pml4)
    &&& loader_inv(m0, mb, pml4, d, i, q)
    &&& is_seg_page(d, i, q)
    &&& forall|j: int| #[trigger] mb.is_free(j) ==> m0.is_free(j)
    &&& valid_path(mb, pml4, seg_page_va(d, i, q))
    &&& mb.free_count() >= 4
    &&& page_loaded(*mb, *ma, pml4, d, seg_page_va(d, i, q), ph_vaddr(d, i), ph_file_offset(d, i), ph_file_size(d, i),
            ph_flags(d, i) & 2 != 0)
}

/// Where the table of `level` on the new page's walk comes from: a frame
/// free before the step, or the table of a loaded page sharing the indices
/// above it.
pub open spec fn q_origin(mb: &PhysicalMemory, ma: &PhysicalMemory, pml4: u64, d: Seq<u8>, i: int, q: int, level: int) -> bool {
    let f = walk_frame(ma, pml4, seg_page_va(d, i, q), level);
    ||| mb.is_free(spec_frame_idx(f as int))
    ||| exists|k: int, p: int| #[trigger] loaded_before(d, i, q, k, p) && same_prefix(seg_page_va(d, k, p), seg_page_va(d, i, q), level)
            && walk_frame(mb, pml4, seg_page_va(d, k, p), level) == f
}

#[verifier::spinoff_prover]
#[verifier::rlimit(100)]
proof fn lemma_q_origin(m0: &PhysicalMemory, mb: &PhysicalMemory, ma: &PhysicalMemory, pml4: u64, d: Seq<u8>, i: int, q: int)
    requires
        step_ctx(m0, mb, ma, pml4, d, i, q),
    ensures
        q_origin(mb, ma, pml4, d, i, q, 3),
        q_origin(mb, ma, pml4, d, i, q, 2),
        q_origin(mb, ma, pml4, d, i, q, 1),
        mb.is_free(spec_frame_idx(walk_frame(ma, pml4, seg_page_va(d, i, q), 3) as int)) ==>
            forall|x: int| 0 <= x < 512 && x != pdpt_idx(seg_page_va(d, i, q))
                ==> #[trigger] ma.entry(walk_frame(ma, pml4, seg_page_va(d, i, q), 3), x) == 0,
        mb.is_free(spec_frame_idx(walk_frame(ma, pml4, seg_page_va(d, i, q), 2) as int)) ==>
            forall|x: int| 0 <= x < 512 && x != pd_idx(seg_page_va(d, i, q))
                ==> #[trigger] ma.entry(walk_frame(ma, pml4, seg_page_va(d, i, q), 2), x) == 0,
{
    let a = seg_page_va(d, i, q);
    let o4 = mb.entry(pml4, pml4_idx(a) as int);
    let o3 = mb.entry(entry_addr(o4), pdpt_idx(a) as int);
    let o2 = mb.entry(entry_addr(o3), pd_idx(a) as int);
    assert(map_tables_origin(mb, ma, pml4, a));
    assert(map_fresh_zero(mb, ma, pml4, a));
    if is_present(o4) {
        lemma_use_top(mb, pml4, d, i, q, i, q);
        let (k, p) = choose|k: int, p: int| #[trigger] loaded_before(d, i, q, k, p) && same_prefix(seg_page_va(d, k, p), a, 3);
        assert(walk_frame(mb, pml4, seg_page_va(d, k, p), 3) == entry_addr(o4));
        lemma_use_taken(m0, mb, pml4, d, i, q, k, p, 3);
        if is_present(o3) {
            lemma_use_inner(mb, pml4, d, i, q, 3, k, p, i, q);
            let (k2, p2) = choose|k2: int, p2: int| #[trigger] loaded_before(d, i, q, k2, p2) && same_prefix(seg_page_va(d, k2, p2), a, 2);
            assert(walk_frame(mb, pml4, seg_page_va(d, k2, p2), 3) == entry_addr(o4));
            assert(walk_frame(mb, pml4, seg_page_va(d, k2, p2), 2) == entry_addr(o3));
            lemma_use_taken(m0, mb, pml4, d, i, q, k2, p2, 2);
            if is_present(o2) {
                lemma_use_inner(mb, pml4, d, i, q, 2, k2, p2, i, q);
                let (k3, p3) = choose|k3: int, p3: int| #[trigger] loaded_before(d, i, q, k3, p3) && same_prefix(seg_page_va(d, k3, p3), a, 1);
                assert(walk_frame(mb, pml4, seg_page_va(d, k3, p3), 3) == entry_addr(o4));
                assert(walk_frame(mb, pml4, seg_page_va(d, k3, p3), 2) == entry_addr(o3));
                assert(walk_frame(mb, pml4, seg_page_va(d, k3, p3), 1) == entry_addr(o2));
            }
        }
    }
}

/// The table of `level` on the walk for `a` (4 for the PML4 itself), and
/// the index that the walk reads in it.
pub open spec fn walk_table_of(m: &PhysicalMemory, pml4: u64, a: u64, level: int) -> u64 {
    if level == 4 { pml4 } else { walk_frame(m, pml4, a, level) }
}

pub open spec fn walk_index(a: u64, level: int) -> int {
    if level == 4 {
        pml4_idx(a) as int
    } else if level == 3 {
        pdpt_idx(a) as int
    } else if level == 2 {
        pd_idx(a) as int
    } else {
        pt_idx(a) as int
    }
}

/// The frames of a loaded page (and the PML4) are in use before the step,
/// and a frame of a loaded page is never the PML4.
proof fn lemma_p_frame_facts(m0: &PhysicalMemory, mb: &PhysicalMemory, ma: &PhysicalMemory, pml4: u64, d: Seq<u8>,
    i: int, q: int, k: int, p: int, l: int)
    requires
        step_ctx(m0, mb, ma, pml4, d, i, q),
        loaded_before(d, i, q, k, p),
        0 <= l <= 3,
    ensures
        !mb.is_free(spec_frame_idx(walk_frame(mb, pml4, seg_page_va(d, k, p), l) as int)),
        walk_frame(mb, pml4, seg_page_va(d, k, p), l) != pml4,
        !mb.is_free(spec_frame_idx(pml4 as int)),
        walk_frame(mb, pml4, seg_page_va(d, k, p), l) % 4096 == 0,
{
    lemma_use_taken(m0, mb, pml4, d, i, q, k, p, l);
}

/// A word of a loaded page's walk (its entry in the table of `level`),
/// or a word of its frame (`level` 0), is the same after the step.
#[verifier::spinoff_prover]
#[verifier::rlimit(100)]
proof fn lemma_p_word_kept(m0: &PhysicalMemory, mb: &PhysicalMemory, ma: &PhysicalMemory, pml4: u64, d: Seq<u8>,
    i: int, q: int, k: int, p: int, level: int, w: int)
    requires
        step_ctx(m0, mb, ma, pml4, d, i, q),
        loaded_before(d, i, q, k, p),
        0 <= level <= 4,
        level >= 1 ==> w == walk_table_of(mb, pml4, seg_page_va(d, k, p), level) / 8 + walk_index(seg_page_va(d, k, p), level),
        level >= 1 ==> is_present(mb.word(w)),
        level == 0 ==> word_frame(w) == spec_frame_idx(walk_frame(mb, pml4, seg_page_va(d, k, p), 0) as int),
    ensures
        ma.word(w) == mb.word(w),
{
    let a = seg_page_va(d, i, q);
    let b = seg_page_va(d, k, p);
    let t = walk_table_of(mb, pml4, b, level);
    lemma_index_bound(b, 39);
    lemma_index_bound(b, 30);
    lemma_index_bound(b, 21);
    lemma_index_bound(b, 12);
    lemma_index_bound(a, 39);
    lemma_index_bound(a, 30);
    lemma_index_bound(a, 21);
    lemma_index_bound(a, 12);
    assert(table_in_use(m0, pml4));
    if level < 4 {
        lemma_p_frame_facts(m0, mb, ma, pml4, d, i, q, k, p, level);
    }
    lemma_p_frame_facts(m0, mb, ma, pml4, d, i, q, k, p, 0);
    if level >= 1 {
        lemma_table_word_frame(t, walk_index(b, level));
    }
    assert(word_frame(w) == spec_frame_idx(t as int));
    assert(!mb.is_free(word_frame(w)));
    if ma.word(w) != mb.word(w) {
        assert(map_changes_only(mb, ma, pml4, a));
        lemma_q_origin(m0, mb, ma, pml4, d, i, q);
        let t3q = walk_frame(ma, pml4, a, 3);
        let t2q = walk_frame(ma, pml4, a, 2);
        let t1q = walk_frame(ma, pml4, a, 1);
        assert(valid_path(ma, pml4, a) && path_present(ma, pml4, a));
        lemma_mask_aligned(ma.entry(pml4, pml4_idx(a) as int));
        lemma_mask_aligned(ma.entry(t3q, pdpt_idx(a) as int));
        lemma_mask_aligned(ma.entry(t2q, pd_idx(a) as int));
        if w == leaf_word(ma, pml4, a) {
            lemma_table_word_frame(t1q, pt_idx(a) as int);
            assert(spec_frame_idx(t1q as int) == spec_frame_idx(t as int));
            assert(t1q == t);
            if !mb.is_free(spec_frame_idx(t1q as int)) {
                let (k1, p1) = choose|k1: int, p1: int| #[trigger] loaded_before(d, i, q, k1, p1)
                    && same_prefix(seg_page_va(d, k1, p1), a, 1) && walk_frame(mb, pml4, seg_page_va(d, k1, p1), 1) == t1q;
                lemma_p_frame_facts(m0, mb, ma, pml4, d, i, q, k1, p1, 1);
                lemma_use_roles(mb, pml4, d, i, q, k1, p1, k, p, 1, level);
                lemma_seg_pages_distinct(d, m0, pml4, k, p, i, q);
            }
        } else {
            assert(!is_present(mb.word(w)) && upper_walk_word(ma, pml4, a, w));
            assert(level == 0);
            if w == t3q / 8 + pdpt_idx(a) {
                lemma_table_word_frame(t3q, pdpt_idx(a) as int);
                if !mb.is_free(spec_frame_idx(t3q as int)) {
                    let (k1, p1) = choose|k1: int, p1: int| #[trigger] loaded_before(d, i, q, k1, p1)
                        && same_prefix(seg_page_va(d, k1, p1), a, 3) && walk_frame(mb, pml4, seg_page_va(d, k1, p1), 3) == t3q;
                    lemma_p_frame_facts(m0, mb, ma, pml4, d, i, q, k1, p1, 3);
                    lemma_use_roles(mb, pml4, d, i, q, k1, p1, k, p, 3, 0);
                }
            } else if w == t2q / 8 + pd_idx(a) {
                lemma_table_word_frame(t2q, pd_idx(a) as int);
                if !mb.is_free(spec_frame_idx(t2q as int)) {
                    let (k1, p1) = choose|k1: int, p1: int| #[trigger] loaded_before(d, i, q, k1, p1)
                        && same_prefix(seg_page_va(d, k1, p1), a, 2) && walk_frame(mb, pml4, seg_page_va(d, k1, p1), 2) == t2q;
                    lemma_p_frame_facts(m0, mb, ma, pml4, d, i, q, k1, p1, 2);
                    lemma_use_roles(mb, pml4, d, i, q, k1, p1, k, p, 2, 0);
                }
            } else {
                lemma_table_word_frame(pml4, pml4_idx(a) as int);
            }
        }
    }
}

/// A present leaf built from a frame and segment page flags.
proof fn lemma_leaf_present(f: u64, writable: bool)
    ensures
        is_present(f | segment_page_flags(writable)),
{
    if writable {
        assert((f | 0x7u64) & 0x1u64 != 0) by (bit_vector);
    } else {
        assert((f | 0x5u64) & 0x1u64 != 0) by (bit_vector);
    }
}

/// A page loaded before the step stays in place, on the same tables and
/// frame, all still taken.
#[verifier::spinoff_prover]
#[verifier::rlimit(100)]
proof fn lemma_p_kept(m0: &PhysicalMemory, mb: &PhysicalMemory, ma: &PhysicalMemory, pml4: u64, d: Seq<u8>,
    i: int, q: int, k: int, p: int)
    requires
        step_ctx(m0, mb, ma, pml4, d, i, q),
        loaded_before(d, i, q, k, p),
    ensures
        page_in_place(ma, pml4, d, k, p),
        forall|l: int| 0 <= l <= 3 ==> #[trigger] walk_frame(ma, pml4, seg_page_va(d, k, p), l)
            == walk_frame(mb, pml4, seg_page_va(d, k, p), l),
        forall|l: int| 0 <= l <= 3 ==> frame_taken(m0, ma, #[trigger] walk_frame(ma, pml4, seg_page_va(d, k, p), l)),
{
    let b = seg_page_va(d, k, p);
    lemma_use_in_place(mb, pml4, d, i, q, k, p);
    let t3 = walk_frame(mb, pml4, b, 3);
    let t2 = walk_frame(mb, pml4, b, 2);
    let t1 = walk_frame(mb, pml4, b, 1);
    let f = walk_frame(mb, pml4, b, 0);
    lemma_p_word_kept(m0, mb, ma, pml4, d, i, q, k, p, 4, pml4 / 8 + pml4_idx(b));
    assert(ma.entry(pml4, pml4_idx(b) as int) == mb.entry(pml4, pml4_idx(b) as int));
    lemma_p_word_kept(m0, mb, ma, pml4, d, i, q, k, p, 3, t3 / 8 + pdpt_idx(b));
    assert(ma.entry(t3, pdpt_idx(b) as int) == mb.entry(t3, pdpt_idx(b) as int));
    lemma_p_word_kept(m0, mb, ma, pml4, d, i, q, k, p, 2, t2 / 8 + pd_idx(b));
    assert(ma.entry(t2, pd_idx(b) as int) == mb.entry(t2, pd_idx(b) as int));
    lemma_leaf_present(f, ph_flags(d, k) & 2 != 0);
    lemma_p_word_kept(m0, mb, ma, pml4, d, i, q, k, p, 1, t1 / 8 + pt_idx(b));
    assert(ma.entry(t1, pt_idx(b) as int) == mb.entry(t1, pt_idx(b) as int));
    assert forall|l: int| 0 <= l <= 3 implies #[trigger] walk_frame(ma, pml4, b, l) == walk_frame(mb, pml4, b, l) by {}
    assert forall|j: int| 0 <= j < 4096 implies #[trigger] ma.byte(f + j)
        == page_byte(d, b, ph_vaddr(d, k), ph_file_offset(d, k), ph_file_size(d, k), j) by {
        lemma_use_taken(m0, mb, pml4, d, i, q, k, p, 0);
        assert(mb.byte(f + j) == page_byte(d, b, ph_vaddr(d, k), ph_file_offset(d, k), ph_file_size(d, k), j));
        assert(word_frame((f + j) / 8) == spec_frame_idx(f as int));
        lemma_p_word_kept(m0, mb, ma, pml4, d, i, q, k, p, 0, (f + j) / 8);
        assert(ma.word((f + j) / 8) == mb.word((f + j) / 8));
    }
    assert forall|l: int| 0 <= l <= 3 implies frame_taken(m0, ma, #[trigger] walk_frame(ma, pml4, b, l)) by {
        lemma_use_taken(m0, mb, pml4, d, i, q, k, p, l);
    }
}

/// The new page is in place after the step, its tables and frame are
/// taken, and they are four distinct frames.
#[verifier::spinoff_prover]
#[verifier::rlimit(100)]
proof fn lemma_q_facts(m0: &PhysicalMemory, mb: &PhysicalMemory, ma: &PhysicalMemory, pml4: u64, d: Seq<u8>, i: int, q: int)
    requires
        step_ctx(m0, mb, ma, pml4, d, i, q),
    ensures
        page_in_place(ma, pml4, d, i, q),
        forall|l: int| 0 <= l <= 3 ==> frame_taken(m0, ma, #[trigger] walk_frame(ma, pml4, seg_page_va(d, i, q), l)),
        forall|l: int, l2: int| 0 <= l <= 3 && 0 <= l2 <= 3 && l != l2 ==>
            #[trigger] walk_frame(ma, pml4, seg_page_va(d, i, q), l) != #[trigger] walk_frame(ma, pml4, seg_page_va(d, i, q), l2),
        mb.is_free(spec_frame_idx(walk_frame(ma, pml4, seg_page_va(d, i, q), 0) as int)),
{
    let a = seg_page_va(d, i, q);
    lemma_q_origin(m0, mb, ma, pml4, d, i, q);
    let f = walk_frame(ma, pml4, a, 0);
    assert(mb.lowest_free(spec_frame_idx(f as int)));
    assert forall|l: int| 0 <= l <= 3 implies frame_taken(m0, ma, #[trigger] walk_frame(ma, pml4, a, l)) by {
        let t = walk_frame(ma, pml4, a, l);
        if l >= 1 {
            assert(table_in_use(ma, t));
            if !mb.is_free(spec_frame_idx(t as int)) {
                let (k, p) = choose|k: int, p: int| #[trigger] loaded_before(d, i, q, k, p)
                    && same_prefix(seg_page_va(d, k, p), a, l) && walk_frame(mb, pml4, seg_page_va(d, k, p), l) == t;
                lemma_use_taken(m0, mb, pml4, d, i, q, k, p, l);
            }
        }
    }
}

/// After the step, frames of two loaded pages coincide only at one level
/// for pages that share the indices above it.
#[verifier::spinoff_prover]
#[verifier::rlimit(100)]
proof fn lemma_roles_pair(m0: &PhysicalMemory, mb: &PhysicalMemory, ma: &PhysicalMemory, pml4: u64, d: Seq<u8>,
    i: int, q: int, k: int, p: int, k2: int, p2: int, l: int, l2: int)
    requires
        step_ctx(m0, mb, ma, pml4, d, i, q),
        loaded_before(d, i, q + 1, k, p),
        loaded_before(d, i, q + 1, k2, p2),
        0 <= l <= 3,
        0 <= l2 <= 3,
        walk_frame(ma, pml4, seg_page_va(d, k, p), l) == walk_frame(ma, pml4, seg_page_va(d, k2, p2), l2),
    ensures
        l == l2,
        same_prefix(seg_page_va(d, k, p), seg_page_va(d, k2, p2), l),
    decreases 2int - (if k == i && p == q { 1int } else { 0int }),
{
    let a = seg_page_va(d, i, q);
    let b = seg_page_va(d, k, p);
    let b2 = seg_page_va(d, k2, p2);
    let new1 = k == i && p == q;
    let new2 = k2 == i && p2 == q;
    if new1 && new2 {
        lemma_q_facts(m0, mb, ma, pml4, d, i, q);
    } else if !new1 && !new2 {
        lemma_p_kept(m0, mb, ma, pml4, d, i, q, k, p);
        lemma_p_kept(m0, mb, ma, pml4, d, i, q, k2, p2);
        lemma_use_roles(mb, pml4, d, i, q, k, p, k2, p2, l, l2);
    } else if new2 {
        lemma_roles_pair(m0, mb, ma, pml4, d, i, q, k2, p2, k, p, l2, l);
    } else {
        lemma_p_kept(m0, mb, ma, pml4, d, i, q, k2, p2);
        lemma_p_frame_facts(m0, mb, ma, pml4, d, i, q, k2, p2, l2);
        lemma_q_facts(m0, mb, ma, pml4, d, i, q);
        lemma_q_origin(m0, mb, ma, pml4, d, i, q);
        let f = walk_frame(ma, pml4, a, l);
        if l >= 1 && !mb.is_free(spec_frame_idx(f as int)) {
            let (k1, p1) = choose|k1: int, p1: int| #[trigger] loaded_before(d, i, q, k1, p1)
                && same_prefix(seg_page_va(d, k1, p1), a, l) && walk_frame(mb, pml4, seg_page_va(d, k1, p1), l) == f;
            lemma_use_roles(mb, pml4, d, i, q, k1, p1, k2, p2, l, l2);
        }
    }
}

/// A page loaded before the step is loaded before the next one.
proof fn lemma_prefix_loaded_grow(d: Seq<u8>, i: int, q: int, a: u64, level: int)
    requires
        prefix_loaded(d, i, q, a, level),
    ensures
        prefix_loaded(d, i, q + 1, a, level),
{
    let (k, p) = choose|k: int, p: int| #[trigger] loaded_before(d, i, q, k, p) && same_prefix(seg_page_va(d, k, p), a, level);
    assert(loaded_before(d, i, q + 1, k, p));
}

/// After the step, present PML4 entries on image walks still belong to
/// loaded pages.
#[verifier::spinoff_prover]
#[verifier::rlimit(100)]
proof fn lemma_top_after(m0: &PhysicalMemory, mb: &PhysicalMemory, ma: &PhysicalMemory, pml4: u64, d: Seq<u8>,
    i: int, q: int, k: int, p: int)
    requires
        step_ctx(m0, mb, ma, pml4, d, i, q),
        is_seg_page(d, k, p),
        is_present(ma.entry(pml4, pml4_idx(seg_page_va(d, k, p)) as int)),
    ensures
        prefix_loaded(d, i, q + 1, seg_page_va(d, k, p), 3),
{
    let a = seg_page_va(d, i, q);
    let x = seg_page_va(d, k, p);
    lemma_index_bound(x, 39);
    lemma_index_bound(a, 39);
    lemma_index_bound(a, 30);
    lemma_index_bound(a, 21);
    lemma_index_bound(a, 12);
    let w = pml4 / 8 + pml4_idx(x);
    lemma_table_word_frame(pml4, pml4_idx(x) as int);
    if ma.word(w) == mb.word(w) {
        lemma_use_top(mb, pml4, d, i, q, k, p);
        lemma_prefix_loaded_grow(d, i, q, x, 3);
    } else {
        assert(map_changes_only(mb, ma, pml4, a));
        assert(table_in_use(m0, pml4));
        let t3q = walk_frame(ma, pml4, a, 3);
        let t2q = walk_frame(ma, pml4, a, 2);
        let t1q = walk_frame(ma, pml4, a, 1);
        assert(valid_path(ma, pml4, a) && path_present(ma, pml4, a));
        lemma_mask_aligned(ma.entry(pml4, pml4_idx(a) as int));
        lemma_mask_aligned(ma.entry(t3q, pdpt_idx(a) as int));
        lemma_mask_aligned(ma.entry(t2q, pd_idx(a) as int));
        lemma_table_word_frame(t3q, pdpt_idx(a) as int);
        lemma_table_word_frame(t2q, pd_idx(a) as int);
        lemma_table_word_frame(t1q, pt_idx(a) as int);
        assert(w == pml4 / 8 + pml4_idx(a));
        assert(loaded_before(d, i, q + 1, i, q) && same_prefix(a, x, 3));
    }
}

/// After the step, present entries of loaded pages' PDPTs (`level` 3) and
/// PDs (`level` 2) on image walks still belong to loaded pages.
#[verifier::spinoff_prover]
#[verifier::rlimit(100)]
proof fn lemma_inner_after(m0: &PhysicalMemory, mb: &PhysicalMemory, ma: &PhysicalMemory, pml4: u64, d: Seq<u8>,
    i: int, q: int, level: int, k: int, p: int, k2: int, p2: int)
    requires
        step_ctx(m0, mb, ma, pml4, d, i, q),
        level == 3 || level == 2,
        loaded_before(d, i, q + 1, k, p),
        is_seg_page(d, k2, p2),
        same_prefix(seg_page_va(d, k, p), seg_page_va(d, k2, p2), level),
        is_present(ma.entry(walk_frame(ma, pml4, seg_page_va(d, k, p), level),
            (if level == 3 { pdpt_idx(seg_page_va(d, k2, p2)) } else { pd_idx(seg_page_va(d, k2, p2)) }) as int)),
    ensures
        prefix_loaded(d, i, q + 1, seg_page_va(d, k2, p2), level - 1),
{
    let a = seg_page_va(d, i, q);
    let b = seg_page_va(d, k, p);
    let x = seg_page_va(d, k2, p2);
    let xi: int = (if level == 3 { pdpt_idx(x) } else { pd_idx(x) }) as int;
    let ai: int = (if level == 3 { pdpt_idx(a) } else { pd_idx(a) }) as int;
    lemma_index_bound(x, 30);
    lemma_index_bound(x, 21);
    lemma_index_bound(a, 39);
    lemma_index_bound(a, 30);
    lemma_index_bound(a, 21);
    lemma_index_bound(a, 12);
    lemma_q_origin(m0, mb, ma, pml4, d, i, q);
    lemma_q_facts(m0, mb, ma, pml4, d, i, q);
    let t = walk_frame(ma, pml4, b, level);
    // The loaded page whose table `t` was before the step, if any.
    let old_owner: Option<(int, int)> = if !(k == i && p == q) {
        Some((k, p))
    } else if !mb.is_free(spec_frame_idx(t as int)) {
        let (k1, p1) = choose|k1: int, p1: int| #[trigger] loaded_before(d, i, q, k1, p1)
            && same_prefix(seg_page_va(d, k1, p1), a, level) && walk_frame(mb, pml4, seg_page_va(d, k1, p1), level) == t;
        Some((k1, p1))
    } else {
        None
    };
    match old_owner {
        None => {
            lemma_zero_entry_absent();
            assert(ma.entry(t, xi) != 0);
            assert(xi == ai);
            assert(loaded_before(d, i, q + 1, i, q) && same_prefix(a, x, level - 1));
        },
        Some((k1, p1)) => {
            let b1 = seg_page_va(d, k1, p1);
            if !(k == i && p == q) {
                lemma_p_kept(m0, mb, ma, pml4, d, i, q, k, p);
            }
            assert(walk_frame(mb, pml4, b1, level) == t);
            assert(same_prefix(b1, x, level));
            assert(loaded_before(d, i, q, k1, p1));
            lemma_p_frame_facts(m0, mb, ma, pml4, d, i, q, k1, p1, level);
            let w = t / 8 + xi;
            lemma_table_word_frame(t, xi);
            if ma.word(w) == mb.word(w) {
                lemma_use_inner(mb, pml4, d, i, q, level, k1, p1, k2, p2);
                lemma_prefix_loaded_grow(d, i, q, x, level - 1);
            } else {
                assert(map_changes_only(mb, ma, pml4, a));
                let t3q = walk_frame(ma, pml4, a, 3);
                let t2q = walk_frame(ma, pml4, a, 2);
                let t1q = walk_frame(ma, pml4, a, 1);
                lemma_mask_aligned(ma.entry(pml4, pml4_idx(a) as int));
                lemma_mask_aligned(ma.entry(t3q, pdpt_idx(a) as int));
                lemma_mask_aligned(ma.entry(t2q, pd_idx(a) as int));
                lemma_table_word_frame(t3q, pdpt_idx(a) as int);
                lemma_table_word_frame(t2q, pd_idx(a) as int);
                lemma_table_word_frame(t1q, pt_idx(a) as int);
                lemma_table_word_frame(pml4, pml4_idx(a) as int);
                let tq = walk_frame(ma, pml4, a, level);
                if w == leaf_word(ma, pml4, a) {
                    if !mb.is_free(spec_frame_idx(t1q as int)) {
                        let (k3, p3) = choose|k3: int, p3: int| #[trigger] loaded_before(d, i, q, k3, p3)
                            && same_prefix(seg_page_va(d, k3, p3), a, 1) && walk_frame(mb, pml4, seg_page_va(d, k3, p3), 1) == t1q;
                        lemma_use_roles(mb, pml4, d, i, q, k3, p3, k1, p1, 1, level);
                    }
                } else {
                    assert(upper_walk_word(ma, pml4, a, w));
                    if w == t3q / 8 + pdpt_idx(a) {
                        assert(t3q == t);
                        if !mb.is_free(spec_frame_idx(t3q as int)) {
                            let (k3, p3) = choose|k3: int, p3: int| #[trigger] loaded_before(d, i, q, k3, p3)
                                && same_prefix(seg_page_va(d, k3, p3), a, 3) && walk_frame(mb, pml4, seg_page_va(d, k3, p3), 3) == t3q;
                            lemma_use_roles(mb, pml4, d, i, q, k3, p3, k1, p1, 3, level);
                        }
                        assert(loaded_before(d, i, q + 1, i, q) && same_prefix(a, x, level - 1));
                    } else if w == t2q / 8 + pd_idx(a) {
                        assert(t2q == t);
                        if !mb.is_free(spec_frame_idx(t2q as int)) {
                            let (k3, p3) = choose|k3: int, p3: int| #[trigger] loaded_before(d, i, q, k3, p3)
                                && same_prefix(seg_page_va(d, k3, p3), a, 2) && walk_frame(mb, pml4, seg_page_va(d, k3, p3), 2) == t2q;
                            lemma_use_roles(mb, pml4, d, i, q, k3, p3, k1, p1, 2, level);
                        }
                        assert(loaded_before(d, i, q + 1, i, q) && same_prefix(a, x, level - 1));
                    }
                }
            }
        },
    }
}

/// One loading step keeps the invariant, with the new page now loaded.
pub proof fn lemma_loader_step(m0: &PhysicalMemory, mb: &PhysicalMemory, ma: &PhysicalMemory, pml4: u64, d: Seq<u8>, i: int, q: int)
    requires
        step_ctx(m0, mb, ma, pml4, d, i, q),
    ensures
        loader_inv(m0, ma, pml4, d, i, q + 1),
{
    lemma_q_facts(m0, mb, ma, pml4, d, i, q);
    assert(inv_in_place(ma, pml4, d, i, q + 1)) by {
        reveal(inv_in_place);
        assert forall|k: int, p: int| #[trigger] loaded_before(d, i, q + 1, k, p) implies page_in_place(ma, pml4, d, k, p) by {
            if !(k == i && p == q) {
                lemma_p_kept(m0, mb, ma, pml4, d, i, q, k, p);
            }
        }
    }
    assert(inv_taken(m0, ma, pml4, d, i, q + 1)) by {
        reveal(inv_taken);
        assert forall|k: int, p: int, l: int| loaded_before(d, i, q + 1, k, p) && 0 <= l <= 3 implies
            frame_taken(m0, ma, #[trigger] walk_frame(ma, pml4, seg_page_va(d, k, p), l)) by {
            if !(k == i && p == q) {
                lemma_p_kept(m0, mb, ma, pml4, d, i, q, k, p);
            }
        }
    }
    assert(inv_roles(ma, pml4, d, i, q + 1)) by {
        reveal(inv_roles);
        assert forall|k: int, p: int, k2: int, p2: int, l: int, l2: int|
            loaded_before(d, i, q + 1, k, p) && loaded_before(d, i, q + 1, k2, p2) && 0 <= l <= 3 && 0 <= l2 <= 3
            && #[trigger] walk_frame(ma, pml4, seg_page_va(d, k, p), l) == #[trigger] walk_frame(ma, pml4, seg_page_va(d, k2, p2), l2)
            implies l == l2 && same_prefix(seg_page_va(d, k, p), seg_page_va(d, k2, p2), l) by {
            lemma_roles_pair(m0, mb, ma, pml4, d, i, q, k, p, k2, p2, l, l2);
        }
    }
    assert(inv_top(ma, pml4, d, i, q + 1)) by {
        reveal(inv_top);
        assert forall|k: int, p: int| #[trigger] is_seg_page(d, k, p)
            && is_present(ma.entry(pml4, pml4_idx(seg_page_va(d, k, p)) as int)) implies prefix_loaded(d, i, q + 1, seg_page_va(d, k, p), 3) by {
            lemma_top_after(m0, mb, ma, pml4, d, i, q, k, p);
        }
    }
    assert forall|level: int| level == 3 || level == 2 implies #[trigger] inv_inner(ma, pml4, d, i, q + 1, level) by {
        reveal(inv_inner);
        assert forall|k: int, p: int, k2: int, p2: int| loaded_before(d, i, q + 1, k, p) && #[trigger] is_seg_page(d, k2, p2)
            && same_prefix(seg_page_va(d, k, p), seg_page_va(d, k2, p2), level)
            && is_present(ma.entry(#[trigger] walk_frame(ma, pml4, seg_page_va(d, k, p), level),
                (if level == 3 { pdpt_idx(seg_page_va(d, k2, p2)) } else { pd_idx(seg_page_va(d, k2, p2)) }) as int))
            implies prefix_loaded(d, i, q + 1, seg_page_va(d, k2, p2), level - 1) by {
            lemma_inner_after(m0, mb, ma, pml4, d, i, q, level, k, p, k2, p2);
        }
    }
}

/// The invariant depends on the cursor only through the pages loaded
/// before it.
pub proof fn lemma_loader_inv_moved(m0: &PhysicalMemory, m: &PhysicalMemory, pml4: u64, d: Seq<u8>, i: int, q: int, i2: int, q2: int)
    requires
        loader_inv(m0, m, pml4, d, i, q),
        forall|k: int, p: int| #[trigger] loaded_before(d, i, q, k, p) == loaded_before(d, i2, q2, k, p),
    ensures
        loader_inv(m0, m, pml4, d, i2, q2),
{
    assert forall|a: u64, level: int| #[trigger] prefix_loaded(d, i, q, a, level) == prefix_loaded(d, i2, q2, a, level) by {
        if prefix_loaded(d, i, q, a, level) {
            let (k, p) = choose|k: int, p: int| #[trigger] loaded_before(d, i, q, k, p) && same_prefix(seg_page_va(d, k, p), a, level);
            assert(loaded_before(d, i2, q2, k, p));
        }
        if prefix_loaded(d, i2, q2, a, level) {
            let (k, p) = choose|k: int, p: int| #[trigger] loaded_before(d, i2, q2, k, p) && same_prefix(seg_page_va(d, k, p), a, level);
            assert(loaded_before(d, i, q, k, p));
        }
    }
    assert(inv_in_place(m, pml4, d, i2, q2)) by {
        reveal(inv_in_place);
        assert forall|k: int, p: int| #[trigger] loaded_before(d, i2, q2, k, p) implies page_in_place(m, pml4, d, k, p) by {
            assert(loaded_before(d, i, q, k, p));
        }
    }
    assert(inv_taken(m0, m, pml4, d, i2, q2)) by {
        reveal(inv_taken);
        assert forall|k: int, p: int, l: int| loaded_before(d, i2, q2, k, p) && 0 <= l <= 3 implies
            frame_taken(m0, m, #[trigger] walk_frame(m, pml4, seg_page_va(d, k, p), l)) by {
            assert(loaded_before(d, i, q, k, p));
        }
    }
    assert(inv_roles(m, pml4, d, i2, q2)) by {
        reveal(inv_roles);
        assert forall|k: int, p: int, k2: int, p2: int, l: int, l2: int|
            loaded_before(d, i2, q2, k, p) && loaded_before(d, i2, q2, k2, p2) && 0 <= l <= 3 && 0 <= l2 <= 3
            && #[trigger] walk_frame(m, pml4, seg_page_va(d, k, p), l) == #[trigger] walk_frame(m, pml4, seg_page_va(d, k2, p2), l2)
            implies l == l2 && same_prefix(seg_page_va(d, k, p), seg_page_va(d, k2, p2), l) by {
            assert(loaded_before(d, i, q, k, p));
            assert(loaded_before(d, i, q, k2, p2));
        }
    }
    assert(inv_top(m, pml4, d, i2, q2)) by {
        reveal(inv_top);
    }
    assert forall|level: int| level == 3 || level == 2 implies #[trigger] inv_inner(m, pml4, d, i2, q2, level) by {
        reveal(inv_inner);
        assert forall|k: int, p: int, k2: int, p2: int| loaded_before(d, i2, q2, k, p) && #[trigger] is_seg_page(d, k2, p2)
            && same_prefix(seg_page_va(d, k, p), seg_page_va(d, k2, p2), level)
            && is_present(m.entry(#[trigger] walk_frame(m, pml4, seg_page_va(d, k, p), level),
                (if level == 3 { pdpt_idx(seg_page_va(d, k2, p2)) } else { pd_idx(seg_page_va(d, k2, p2)) }) as int))
            implies prefix_loaded(d, i2, q2, seg_page_va(d, k2, p2), level - 1) by {
            assert(loaded_before(d, i, q, k, p));
            assert(inv_inner(m, pml4, d, i, q, level));
        }
    }
}

/// Once every segment is done, every page of the image is in place.
pub proof fn lemma_loader_done(m0: &PhysicalMemory, m: &PhysicalMemory, pml4: u64, d: Seq<u8>)
    requires
        loader_inv(m0, m, pml4, d, elf_phnum(d) as int, 0),
    ensures
        forall|i: int, p: int| #[trigger] is_seg_page(d, i, p) ==> page_in_place(m, pml4, d, i, p),
{
    assert forall|i: int, p: int| #[trigger] is_seg_page(d, i, p) implies page_in_place(m, pml4, d, i, p) by {
        assert(loaded_before(d, elf_phnum(d) as int, 0, i, p));
        lemma_use_in_place(m, pml4, d, elf_phnum(d) as int, 0, i, p);
    }
}

} // verus!
