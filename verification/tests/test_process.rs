use kernel::boot::boot_processes;
use kernel::interrupt_server::IrqHandlers;
use kernel::filesystem::FileSystem;
use kernel::paging::{PhysicalMemory, USER_STACK_VADDR, USER_VADDR_START};
use kernel::process::{
    alloc_user_pid, free_user_pid_slot, get_current_pid, schedule_init, schedule_next, set_current_pid, IpcMessage,
    Process, ProcessState, ProcessTable, UserPidPool,
};
use kernel::signal::sig_num::{SIGALRM, SIGKILL, SIGTERM};
use kernel::signal::{default_action, deliver_pending, send_signal, SignalAction};
use kernel::syscall::timer_save_and_switch;
use kernel::tss::TaskStateSegment;

fn code_page(fill: u8) -> Vec<u8> {
    vec![fill; 4096]
}

fn entry_addr(e: u64) -> u64 {
    e & 0x000F_FFFF_FFFF_F000
}

#[test]
fn test_spawn_assigns_pids_in_order() {
    let mut mem = PhysicalMemory::new();
    let mut table = ProcessTable::new();
    let code = code_page(0xC3);
    assert_eq!(table.spawn(&mut mem, &code, "vga"), Some(1));
    assert_eq!(table.spawn(&mut mem, &code, "kbd"), Some(2));
    let p = table.get(1).unwrap();
    assert_eq!(p.name, "vga");
    assert_eq!(p.state, ProcessState::Ready);
    assert_eq!(p.entry_point, USER_VADDR_START);
    assert_eq!(p.registers.rip, USER_VADDR_START);
    assert_eq!(p.registers.rsp, USER_STACK_VADDR);
    assert_eq!(p.registers.rflags, 0x202);
    assert_eq!(p.capabilities, 0);
    // Code frame, then four tables, then the kernel stack.
    assert_eq!(p.cr3, 0x101000);
    assert_eq!(p.kernel_stack_top, 0x105000 + 4096);
    // The code page is mapped at the user code address and holds the code.
    let pdpt = entry_addr(mem.read_pt_entry(p.cr3, 0));
    let pd = entry_addr(mem.read_pt_entry(pdpt, 0));
    let pt = entry_addr(mem.read_pt_entry(pd, 2));
    let code_frame = entry_addr(mem.read_pt_entry(pt, 0));
    assert_eq!(code_frame, 0x100000);
    assert_eq!(mem.read_byte(code_frame + 17), 0xC3);
}

#[test]
fn test_spawn_table_full() {
    let mut mem = PhysicalMemory::new();
    let mut table = ProcessTable::new();
    let code = code_page(0);
    for i in 1..=8u16 {
        assert_eq!(table.spawn(&mut mem, &code, "p"), Some(i));
    }
    assert_eq!(table.spawn(&mut mem, &code, "p"), None);
    assert!(table.get(9).is_none());
}

#[test]
fn test_process_new_and_registers() {
    let mut p = Process::new(7, 0x1234, "x");
    assert_eq!(p.pid, 7);
    assert_eq!(p.cr3, 0);
    assert_eq!(p.registers.rip, 0);
    p.init_registers();
    assert_eq!(p.registers.rip, 0x1234);
    assert_eq!(p.registers.rsp, USER_STACK_VADDR);
    assert_eq!(p.registers.rbp, USER_STACK_VADDR);
}

#[test]
fn test_ipc_queue_fifo() {
    let mut p = Process::new(1, 0, "q");
    assert!(p.ipc_pop().is_none());
    for t in 0..15u16 {
        assert!(p.ipc_push(IpcMessage::new(0, t, [0u8; 60])));
    }
    assert!(!p.ipc_push(IpcMessage::new(0, 99, [0u8; 60])));
    for t in 0..15u16 {
        assert_eq!(p.ipc_pop().unwrap().msg_type, t);
    }
    assert!(p.ipc_pop().is_none());
}

#[test]
fn test_fork_process() {
    let mut mem = PhysicalMemory::new();
    let mut table = ProcessTable::new();
    let code = code_page(1);
    let parent = table.spawn(&mut mem, &code, "parent").unwrap();
    table.get_mut(parent).unwrap().registers.rax = 55;
    table.get_mut(parent).unwrap().registers.rbx = 66;
    let child = table.fork_process(&mut mem, parent).unwrap();
    assert_eq!(child, 2);
    let c = table.get(child).unwrap();
    assert_eq!(c.registers.rax, 0);
    assert_eq!(c.registers.rbx, 66);
    assert_eq!(c.name, "parent");
    assert_eq!(c.state, ProcessState::Ready);
    let parent_cr3 = table.get(parent).unwrap().cr3;
    assert_ne!(c.cr3, parent_cr3);
    // The child's code page is a COW alias of the parent's code frame.
    let pdpt = entry_addr(mem.read_pt_entry(c.cr3, 0));
    let pd = entry_addr(mem.read_pt_entry(pdpt, 0));
    let pt = entry_addr(mem.read_pt_entry(pd, 2));
    assert_eq!(mem.read_pt_entry(pt, 0), 0x100000 | 0x205);
    assert_eq!(table.fork_process(&mut mem, 42), None);
}

#[test]
fn test_exec_builtin() {
    let mut mem = PhysicalMemory::new();
    let mut table = ProcessTable::new();
    let pid = table.spawn(&mut mem, &code_page(1), "old").unwrap();
    assert!(table.exec_builtin(&mut mem, pid, &code_page(2), 0xDEAD000, "new"));
    let p = table.get(pid).unwrap();
    assert_eq!(p.name, "new");
    assert_eq!(p.entry_point, 0xDEAD000);
    assert_eq!(p.registers.rip, 0xDEAD000);
    assert_eq!(p.registers.rsp, USER_STACK_VADDR);
    // The old code frame was unmapped and freed, then reused for the new code.
    assert!(!mem.is_frame_free(0x100000));
    assert_eq!(mem.read_byte(0x100000), 2);
    assert_eq!(mem.read_byte(0x100000 + 4095), 2);
    // The code address maps that frame, user-accessible and writable.
    let pdpt = entry_addr(mem.read_pt_entry(p.cr3, 0));
    let pd = entry_addr(mem.read_pt_entry(pdpt, 0));
    let pt = entry_addr(mem.read_pt_entry(pd, 2));
    assert_eq!(mem.read_pt_entry(pt, 0), 0x100000 | 0x7);
    assert!(!table.exec_builtin(&mut mem, 77, &code_page(2), 0, "none"));
}

#[test]
fn test_load_elf_into_process_rejects_text_file() {
    let mut mem = PhysicalMemory::new();
    let mut fs = FileSystem::new();
    let mut table = ProcessTable::new();
    let pid = table.spawn(&mut mem, &code_page(1), "p").unwrap();
    assert!(!table.load_elf_into_process(&mut fs, &mut mem, pid, "hello.txt"));
    assert!(!table.load_elf_into_process(&mut fs, &mut mem, pid, "nope"));
    assert_eq!(table.get(pid).unwrap().entry_point, USER_VADDR_START);
    // The descriptor was closed again.
    assert_eq!(fs.open(pid, "README"), Some(0));
}

#[test]
fn test_user_pid_pool() {
    let mut pool = UserPidPool::new();
    assert_eq!(alloc_user_pid(&mut pool), 1);
    assert_eq!(alloc_user_pid(&mut pool), 2);
    free_user_pid_slot(&mut pool, 1);
    assert_eq!(alloc_user_pid(&mut pool), 1);
    for _ in 0..14 {
        assert_ne!(alloc_user_pid(&mut pool), 0);
    }
    assert_eq!(alloc_user_pid(&mut pool), 0);
}

#[test]
fn test_state_changes() {
    let mut mem = PhysicalMemory::new();
    let mut table = ProcessTable::new();
    let pid = table.spawn(&mut mem, &code_page(0), "p").unwrap();
    table.set_running(pid);
    assert_eq!(table.get(pid).unwrap().state, ProcessState::Running);
    table.set_blocked(pid);
    assert_eq!(table.get(pid).unwrap().state, ProcessState::Blocked);
    table.set_ready(pid);
    assert_eq!(table.get(pid).unwrap().state, ProcessState::Ready);
    table.set_running(99);
}

#[test]
fn test_schedule_next_round_robin() {
    let mut mem = PhysicalMemory::new();
    let mut table = ProcessTable::new();
    for _ in 0..3 {
        table.spawn(&mut mem, &code_page(0), "p").unwrap();
    }
    let first = schedule_init(&mut table).unwrap();
    assert_eq!(first.entry, USER_VADDR_START);
    assert_eq!(first.stack, USER_STACK_VADDR);
    assert_eq!(get_current_pid(&table), 1);
    assert_eq!(table.get(1).unwrap().state, ProcessState::Running);
    schedule_next(&mut table);
    assert_eq!(get_current_pid(&table), 2);
    assert_eq!(table.get(1).unwrap().state, ProcessState::Ready);
    assert_eq!(table.get(2).unwrap().state, ProcessState::Running);
    // Round robin from the slot after the current one.
    schedule_next(&mut table);
    assert_eq!(get_current_pid(&table), 3);
    schedule_next(&mut table);
    assert_eq!(get_current_pid(&table), 1);
    table.set_blocked(2);
    schedule_next(&mut table);
    assert_eq!(get_current_pid(&table), 3);
    // No other ready process: the current one keeps running.
    table.set_blocked(1);
    schedule_next(&mut table);
    assert_eq!(get_current_pid(&table), 3);
    assert_eq!(table.get(3).unwrap().state, ProcessState::Running);
}

#[test]
fn test_schedule_keeps_terminated_state() {
    let mut mem = PhysicalMemory::new();
    let mut table = ProcessTable::new();
    table.spawn(&mut mem, &code_page(0), "a").unwrap();
    table.spawn(&mut mem, &code_page(0), "b").unwrap();
    schedule_init(&mut table).unwrap();
    table.set_blocked(2);
    table.set_terminated(1);
    schedule_next(&mut table);
    assert_eq!(get_current_pid(&table), 1);
    assert_eq!(table.get(1).unwrap().state, ProcessState::Terminated);
    assert_eq!(table.get(2).unwrap().state, ProcessState::Blocked);
}

#[test]
fn test_schedule_init_empty() {
    let mut table = ProcessTable::new();
    assert!(schedule_init(&mut table).is_none());
    set_current_pid(&mut table, 4);
    assert_eq!(get_current_pid(&table), 4);
}

#[test]
fn test_signals() {
    let mut mem = PhysicalMemory::new();
    let mut table = ProcessTable::new();
    let pid = table.spawn(&mut mem, &code_page(0), "p").unwrap();
    assert_eq!(default_action(SIGALRM), SignalAction::Ignore);
    assert_eq!(default_action(SIGTERM), SignalAction::Kill);
    assert!(!deliver_pending(&mut table, &mut mem, pid));
    table.set_blocked(pid);
    send_signal(&mut table, pid, SIGALRM);
    assert_eq!(table.get(pid).unwrap().state, ProcessState::Ready);
    send_signal(&mut table, pid, SIGTERM);
    assert_eq!(table.get(pid).unwrap().signal_pending, (1 << SIGALRM) | (1 << SIGTERM));
    // Lowest first: the alarm is ignored, then the terminate kills.
    assert!(deliver_pending(&mut table, &mut mem, pid));
    assert_eq!(table.get(pid).unwrap().state, ProcessState::Ready);
    assert!(deliver_pending(&mut table, &mut mem, pid));
    assert_eq!(table.get(pid).unwrap().state, ProcessState::Terminated);
    assert_eq!(table.get(pid).unwrap().signal_pending, 0);
    send_signal(&mut table, pid, 64);
    assert_eq!(table.get(pid).unwrap().signal_pending, 0);
    send_signal(&mut table, pid, SIGKILL);
    assert!(deliver_pending(&mut table, &mut mem, pid));
}

#[test]
fn test_signal_handler_redirects() {
    let mut mem = PhysicalMemory::new();
    let mut table = ProcessTable::new();
    let pid = table.spawn(&mut mem, &code_page(0), "p").unwrap();
    {
        let p = table.get_mut(pid).unwrap();
        p.signal_handlers[7] = Some(0x40_2000);
        p.registers.rip = 0x40_1234;
    }
    send_signal(&mut table, pid, 7);
    assert!(deliver_pending(&mut table, &mut mem, pid));
    let p = table.get(pid).unwrap();
    assert_eq!(p.signal_pending, 0);
    assert_eq!(p.state, ProcessState::Ready);
    assert_eq!(p.registers.rip, 0x40_2000);
    assert_eq!(p.registers.rsp, USER_STACK_VADDR - 8);
    let slot = USER_STACK_VADDR - 8;
    let mut bytes = [0u8; 8];
    for (k, b) in bytes.iter_mut().enumerate() {
        *b = mem.read_byte(slot + k as u64);
    }
    assert_eq!(u64::from_le_bytes(bytes), 0x40_1234);
}

#[test]
fn test_timer_save_and_switch() {
    let mut mem = PhysicalMemory::new();
    let mut table = ProcessTable::new();
    table.spawn(&mut mem, &code_page(0), "a").unwrap();
    table.spawn(&mut mem, &code_page(0), "b").unwrap();
    schedule_init(&mut table).unwrap();
    let mut frame = [0u64; 20];
    for (i, v) in frame.iter_mut().enumerate() {
        *v = 100 + i as u64;
    }
    let mut tss = TaskStateSegment::new();
    table.get_mut(2).unwrap().signal_pending = 1 << SIGALRM;
    timer_save_and_switch(&mut table, &mut mem, &mut tss, &mut frame);
    assert_eq!(get_current_pid(&table), 2);
    // Process 1 saved the frame's registers.
    let a = table.get(1).unwrap();
    assert_eq!(a.registers.rax, 114);
    assert_eq!(a.registers.r15, 100);
    assert_eq!(a.registers.rip, 115);
    assert_eq!(a.registers.rsp, 118);
    assert_eq!(a.state, ProcessState::Ready);
    // Process 2's pending signal was delivered and its kernel stack is RSP0.
    let b = table.get(2).unwrap();
    assert_eq!(b.signal_pending, 0);
    assert_eq!(tss.rsp0(), b.kernel_stack_top);
    // The frame now holds process 2's registers.
    assert_eq!(frame[15], USER_VADDR_START);
    assert_eq!(frame[18], USER_STACK_VADDR);
    assert_eq!(frame[14], 0);
    assert_eq!(frame[16], 116);
    assert_eq!(frame[17], 0x202);
}

#[test]
fn test_boot_processes() {
    let mut mem = PhysicalMemory::new();
    let mut table = ProcessTable::new();
    let mut irqs = IrqHandlers::new();
    let images = vec![code_page(1), code_page(2), code_page(3), code_page(4)];
    let pids = boot_processes(&mut table, &mut mem, &mut irqs, &images);
    assert_eq!(pids, [Some(1), Some(2), Some(3), Some(4)]);
    let names = ["vga-server", "keyboard", "init", "shell"];
    let states = [ProcessState::Running, ProcessState::Ready, ProcessState::Running, ProcessState::Ready];
    let caps = [0u64, 0b1001, 0, 0b10];
    for i in 0..4usize {
        let p = table.get(i as u16 + 1).unwrap();
        assert_eq!(p.name, names[i]);
        assert_eq!(p.state, states[i]);
        assert_eq!(p.capabilities, caps[i]);
        assert_eq!(p.entry_point, USER_VADDR_START);
        assert_ne!(p.cr3, 0);
        // Each service's code page holds its own image.
        let pdpt = entry_addr(mem.read_pt_entry(p.cr3, 0));
        let pd = entry_addr(mem.read_pt_entry(pdpt, 0));
        let pt = entry_addr(mem.read_pt_entry(pd, 2));
        let code = entry_addr(mem.read_pt_entry(pt, 0));
        assert_eq!(mem.read_byte(code + 9), i as u8 + 1);
    }
    assert_eq!(get_current_pid(&table), 3);
    assert_eq!(irqs.get_handlers(1), vec![2, 0, 0, 0]);
    // The VGA server maps the text memory at 0x600000: PD[3] of its tree.
    let p = table.get(1).unwrap();
    let pdpt = entry_addr(mem.read_pt_entry(p.cr3, 0));
    let pd = entry_addr(mem.read_pt_entry(pdpt, 0));
    let pt = entry_addr(mem.read_pt_entry(pd, 3));
    assert_eq!(mem.read_pt_entry(pt, 0), 0xB8000 | 0x17);
    // The keyboard's tables are untouched by the VGA mapping.
    let k = table.get(2).unwrap();
    assert_eq!(mem.read_pt_entry(entry_addr(mem.read_pt_entry(entry_addr(mem.read_pt_entry(k.cr3, 0)), 0)), 3), 0);
}
