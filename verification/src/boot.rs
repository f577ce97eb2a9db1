//! Bringing up the built-in services at boot: the VGA server, the keyboard
//! server, init and the shell, in that order, each from a one-page image.

use vstd::prelude::*;
use crate::capability::grant;
use crate::capability::cap_id::{DRIVER_SEND, KEYBOARD_SEND, VGA_SEND};
use crate::interrupt_server::{IrqHandlers, BASE_IRQ_COUNT};
use crate::paging::{PhysicalMemory, map_phys_page, leaf_entry, path_present, valid_path, entry_addr, is_present,
    address_space_layout, space_tables_in_use, only_free_frames_changed, lemma_walk_kept, lemma_zero_entry_absent,
    page_flags, spec_frame_addr, lemma_fresh_space_vga_walk, lemma_lowest_free_exists, ADDR_MASK, NUM_FRAMES, PAGE_SIZE, PHYS_MEM_END, PHYS_MEM_START, VGA_BUFFER_VADDR, VGA_PHYS_ADDR};
use crate::process::{Pid, Process, ProcessState, ProcessTable, MAX_PROCESSES, first_with_pid, holds_pid, lemma_slot_of,
    set_current_pid, slot_of, spawned, first_empty};
use crate::interrupt_server::first_free;

verus! {

/// Flags of the VGA buffer page of the VGA server: present, writable,
/// user-accessible, cache disabled.
pub open spec fn vga_page_flags() -> u64 {
    0x17
}

/// `s` with capability `cap` added to the process `pid` (the first slot
/// holding it), if any.
pub open spec fn with_cap(s: Seq<Option<Process>>, pid: Pid, cap: usize) -> Seq<Option<Process>> {
    match slot_of(s, pid) {
        None => s,
        Some(i) => s.update(i, Some(Process { capabilities: s[i]->0.capabilities | (1u64 << cap as u64), ..s[i]->0 })),
    }
}

/// Add capability `cap` to process `pid`, if there is one.
fn grant_cap(table: &mut ProcessTable, pid: Pid, cap: usize)
    requires
        old(table).wf(),
        cap < 64,
    ensures
        final(table).wf(),
        final(table).slots() == with_cap(old(table).slots(), pid, cap),
        final(table).next_pid_spec() == old(table).next_pid_spec(),
        final(table).current() == old(table).current(),
{
    if let Some(p) = table.get_mut(pid) {
        grant(&mut p.capabilities, cap);
    }
}

/// Everything that booting starts from: an empty table handing out PID 1
/// next, no handler for IRQ 1, and at least 27 free frames (six for each
/// service and three for the VGA buffer's page table).
pub open spec fn boot_start(t: &ProcessTable, mem: &PhysicalMemory, irqs: &IrqHandlers) -> bool {
    &&& t.slots() == Seq::new(MAX_PROCESSES as nat, |i: int| None::<Process>)
    &&& t.next_pid_spec() == 1
    &&& irqs.slots(1) == seq![0u16, 0u16, 0u16, 0u16]
    &&& mem.free_count() >= 27
}

/// Slot `k` of `s` holds the service that booting spawned there: PID
/// `k + 1`, named `name`, in state `st`, holding capabilities `caps`, and
/// otherwise as `spawn` set it up, with its page tables in managed RAM.
pub open spec fn boot_slot(s: Seq<Option<Process>>, k: int, name: &'static str, st: ProcessState, caps: u64) -> bool {
    &&& s[k] is Some
    &&& spawned(Process { state: ProcessState::Ready, capabilities: 0, ..s[k]->0 }, (k + 1) as Pid, name,
            s[k]->0.cr3, s[k]->0.kernel_stack_top)
    &&& s[k]->0.state == st
    &&& s[k]->0.capabilities == caps
    &&& PHYS_MEM_START <= s[k]->0.cr3 < PHYS_MEM_END
}

/// The VGA buffer page is mapped in the address space rooted at `cr3`: the
/// walk for `VGA_BUFFER_VADDR` ends in the VGA text memory with
/// `vga_page_flags`.
pub open spec fn vga_mapped(m: &PhysicalMemory, cr3: u64) -> bool {
    &&& valid_path(m, cr3, VGA_BUFFER_VADDR)
    &&& path_present(m, cr3, VGA_BUFFER_VADDR)
    &&& leaf_entry(m, cr3, VGA_BUFFER_VADDR) == VGA_PHYS_ADDR | vga_page_flags()
}

/// In slots whose first `n` hold PIDs 1 to `n` in order, PID `k + 1` is
/// found in slot `k`.
proof fn lemma_boot_slot_of(s: Seq<Option<Process>>, n: int, k: int)
    requires
        0 <= k < n <= s.len(),
        forall|j: int| 0 <= j < n ==> #[trigger] s[j] is Some && s[j]->0.pid == j + 1,
    ensures
        slot_of(s, (k + 1) as Pid) == Some(k),
{
    assert(s[k] is Some);
    assert forall|j: int| 0 <= j < k implies !#[trigger] holds_pid(s, j, (k + 1) as Pid) by {
        assert(s[j] is Some);
    }
    assert(first_with_pid(s, (k + 1) as Pid, k));
    lemma_slot_of(s, (k + 1) as Pid);
}

/// The entry that maps the VGA text memory with the VGA page flags.
proof fn lemma_vga_entry()
    ensures
        (VGA_PHYS_ADDR & ADDR_MASK) | (page_flags::PRESENT | page_flags::WRITABLE | page_flags::USER_ACCESS
            | page_flags::CACHE_DISABLE) == VGA_PHYS_ADDR | vga_page_flags(),
{
    assert((0xB8000u64 & 0x000F_FFFF_FFFF_F000u64) | (0x1u64 | 0x2u64 | 0x4u64 | 0x10u64) == 0xB8000u64 | 0x17u64)
        by (bit_vector);
}

/// Spawn the built-in services from `images`, in order: the VGA server
/// (its address space also maps, when its page tables are page-aligned, the VGA text memory at
/// `VGA_BUFFER_VADDR` with `vga_page_flags`, and it becomes the running
/// process), the keyboard server (ready, the handler of IRQ 1, allowed to
/// send to drivers and to the VGA server), init (running, and the current
/// process) and the shell (ready, allowed to send to the keyboard server).
/// Returns the PID each got, `None` where `spawn` gave none.
///
/// From an empty table that hands out PID 1 next, with no handler for
/// IRQ 1 and at least 27 free frames, the services get PIDs 1 to 4 in
/// slots 0 to 3 as `boot_slot` says, init is current, and the VGA server's
/// buffer page is mapped.
#[verifier::rlimit(100)]
pub fn boot_processes(table: &mut ProcessTable, mem: &mut PhysicalMemory, irqs: &mut IrqHandlers, images: &[Vec<u8>]) -> (pids: [Option<Pid>; 4])
    requires
        old(table).wf(),
        old(mem).wf(),
        old(irqs).wf(),
        images@.len() == 4,
        forall|i: int| 0 <= i < 4 ==> #[trigger] images@[i]@.len() == PAGE_SIZE,
    ensures
        final(table).wf(),
        final(mem).wf(),
        final(irqs).wf(),
        forall|j: int| #[trigger] final(mem).is_free(j) ==> old(mem).is_free(j),
        final(irqs).server() == old(irqs).server(),
        forall|irq: int| 0 <= irq < BASE_IRQ_COUNT && irq != 1 ==> #[trigger] final(irqs).slots(irq) == old(irqs).slots(irq),
        boot_start(old(table), old(mem), old(irqs)) ==> {
            let s = final(table).slots();
            &&& pids@ == seq![Some(1u16), Some(2u16), Some(3u16), Some(4u16)]
            &&& boot_slot(s, 0, "vga-server", ProcessState::Running, 0)
            &&& boot_slot(s, 1, "keyboard", ProcessState::Ready, (0u64 | (1u64 << DRIVER_SEND as u64)) | (1u64 << VGA_SEND as u64))
            &&& boot_slot(s, 2, "init", ProcessState::Running, 0)
            &&& boot_slot(s, 3, "shell", ProcessState::Ready, 0u64 | (1u64 << KEYBOARD_SEND as u64))
            &&& forall|k: int| 4 <= k < MAX_PROCESSES ==> #[trigger] s[k] is None
            &&& final(table).current() == 3
            &&& final(table).next_pid_spec() == 5
            &&& vga_mapped(final(mem), s[0]->0.cr3)
            &&& final(irqs).slots(1) == seq![2u16, 0u16, 0u16, 0u16]
        },
{
    let ghost fresh = boot_start(old(table), old(mem), old(irqs));
    let ghost m0 = *mem;
    let ghost s0 = table.slots();
    proof {
        if fresh {
            assert(first_empty(s0, 0));
            m0.lemma_exhausted_iff_no_free();
            let j = choose|j: int| 0 <= j < NUM_FRAMES && #[trigger] m0.is_free(j);
            lemma_lowest_free_exists(&m0, j);
        }
    }
    let vga = table.spawn(mem, images[0].as_slice(), "vga-server");
    let ghost m1 = *mem;
    let ghost s1 = table.slots();
    if let Some(pid) = vga {
        let cr3 = match table.get(pid) {
            Some(p) => Some(p.cr3),
            None => None,
        };
        proof {
            if fresh {
                lemma_boot_slot_of(s1, 1, 0);
            }
        }
        if let Some(c) = cr3 {
            if c % 4096 == 0 {
                proof {
                    if fresh {
                        let k = choose|k: int| #[trigger] m0.lowest_free(k);
                        lemma_fresh_space_vga_walk(&m1, c, spec_frame_addr(k) as u64);
                    }
                }
                map_phys_page(mem, c, VGA_BUFFER_VADDR, VGA_PHYS_ADDR,
                    page_flags::PRESENT | page_flags::WRITABLE | page_flags::USER_ACCESS | page_flags::CACHE_DISABLE);
                proof {
                    if fresh {
                        lemma_vga_entry();
                    }
                }
            }
        }
        table.set_running(pid);
        set_current_pid(table, pid);
    }
    let ghost m2 = *mem;
    let ghost s2 = table.slots();
    proof {
        if fresh {
            lemma_boot_slot_of(s1, 1, 0);
            assert(first_empty(s2, 1));
        }
    }
    let kbd = table.spawn(mem, images[1].as_slice(), "keyboard");
    let ghost m3 = *mem;
    let ghost s3 = table.slots();
    proof {
        if fresh {
            lemma_walk_kept(&m2, &m3, s1[0]->0.cr3, VGA_BUFFER_VADDR);
            lemma_boot_slot_of(s3, 2, 1);
        }
    }
    if let Some(pid) = kbd {
        table.set_ready(pid);
        let ghost i0 = *irqs;
        irqs.register_handler(1, pid);
        proof {
            if fresh {
                let k = choose|k: int| #[trigger] first_free(i0.slots(1), k)
                    && irqs.slots(1) == i0.slots(1).update(k, 2u16);
                if k > 0 {
                    assert(i0.slots(1)[0] != 0);
                }
                assert(irqs.slots(1) =~= seq![2u16, 0u16, 0u16, 0u16]);
            }
        }
        proof {
            if fresh {
                lemma_boot_slot_of(table.slots(), 2, 1);
            }
        }
        grant_cap(table, pid, DRIVER_SEND);
        proof {
            if fresh {
                lemma_boot_slot_of(table.slots(), 2, 1);
            }
        }
        grant_cap(table, pid, VGA_SEND);
    }
    let ghost s4 = table.slots();
    proof {
        if fresh {
            assert(first_empty(s4, 2));
        }
    }
    let init = table.spawn(mem, images[2].as_slice(), "init");
    let ghost m5 = *mem;
    proof {
        if fresh {
            lemma_walk_kept(&m3, &m5, s1[0]->0.cr3, VGA_BUFFER_VADDR);
            lemma_boot_slot_of(table.slots(), 3, 2);
        }
    }
    if let Some(pid) = init {
        table.set_running(pid);
        set_current_pid(table, pid);
    }
    let ghost s6 = table.slots();
    let ghost m6 = *mem;
    proof {
        if fresh {
            assert(first_empty(s6, 3));
        }
    }
    let shell = table.spawn(mem, images[3].as_slice(), "shell");
    let ghost m7 = *mem;
    proof {
        if fresh {
            lemma_walk_kept(&m6, &m7, s1[0]->0.cr3, VGA_BUFFER_VADDR);
            lemma_boot_slot_of(table.slots(), 4, 3);
        }
    }
    if let Some(pid) = shell {
        table.set_ready(pid);
        proof {
            if fresh {
                lemma_boot_slot_of(table.slots(), 4, 3);
            }
        }
        grant_cap(table, pid, KEYBOARD_SEND);
    }
    let pids = [vga, kbd, init, shell];
    proof {
        if fresh {
            assert(pids@ =~= seq![Some(1u16), Some(2u16), Some(3u16), Some(4u16)]);
        }
    }
    pids
}

} // verus!
