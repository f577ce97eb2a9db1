use kernel::device_manager::DeviceManager;
use kernel::ipc::{Message, MessageQueue};
use kernel::keyboard::{decode_scancode, output_buffer_full, poll_keyboard, KeyEvent};
use kernel::paging::PhysicalMemory;
use kernel::process::ProcessTable;
use kernel::syscall::syscall_nr;
use kernel::syscall::{build_idt, get_idt_base, syscall_dispatch, IdtEntry, SyscallHandler, SyscallTable};
use kernel::tss::{tss_descriptor, DoubleFaultStack, KernelStack, TaskStateSegment};
use kernel::vga::{hex_line, hex_nibble, VgaWriter};

#[test]
fn test_message_queue_fifo_and_full() {
    let mut q = MessageQueue::new();
    assert!(q.receive().is_none());
    assert!(q.send(Message::VgaPrint(b'a')));
    assert!(q.send(Message::VgaClear));
    assert_eq!(q.receive(), Some(Message::VgaPrint(b'a')));
    assert_eq!(q.receive(), Some(Message::VgaClear));
    assert!(q.receive().is_none());
    let mut n = 0;
    while q.send(Message::VgaBackspace) {
        n += 1;
    }
    assert_eq!(n, 31);
}

#[test]
fn test_device_manager_queues_prints() {
    let mut dm = DeviceManager::new();
    dm.initialize_vga();
    assert_eq!(dm.current_cursor, 0);
    assert!(dm.write_char(b'x'));
    dm.print_string("ok");
    assert!(dm.backspace());
    assert_eq!(dm.ipc_queue.receive(), Some(Message::VgaClear));
    assert_eq!(dm.ipc_queue.receive(), Some(Message::VgaPrint(b'x')));
    assert_eq!(dm.ipc_queue.receive(), Some(Message::VgaPrint(b'o')));
    assert_eq!(dm.ipc_queue.receive(), Some(Message::VgaPrint(b'k')));
    assert_eq!(dm.ipc_queue.receive(), Some(Message::VgaBackspace));
    assert!(dm.ipc_queue.receive().is_none());
}

#[test]
fn test_keyboard_decode() {
    assert_eq!(decode_scancode(0x1C), Some(KeyEvent::Enter));
    assert_eq!(decode_scancode(0x0E), Some(KeyEvent::Backspace));
    assert_eq!(decode_scancode(0x29), Some(KeyEvent::Char(b'`')));
    assert_eq!(decode_scancode(0x2C), Some(KeyEvent::Char(b'z')));
    assert_eq!(decode_scancode(0x9E), None);
    assert!(output_buffer_full(0x01));
    assert!(!output_buffer_full(0x02));
    assert_eq!(poll_keyboard(0x00, 0x1E), None);
    assert_eq!(poll_keyboard(0x01, 0x1E), Some(KeyEvent::Char(b'a')));
}

#[test]
fn test_tss_fields() {
    let mut t = TaskStateSegment::new();
    assert_eq!(t.rsp0(), 0);
    t.set_kernel_stack(0xFFFF_8000_0000_1000);
    assert_eq!(t.rsp0(), 0xFFFF_8000_0000_1000);
    t.set_ist1(0x1234_5678);
    assert_eq!(t.ist1(), 0x1234_5678);
    assert_eq!(t.rsp0(), 0xFFFF_8000_0000_1000);
    t.set_rsp0(7);
    t.set_iopb(104);
    assert_eq!(t.rsp0(), 7);
    assert_eq!(t.ist1(), 0x1234_5678);
    let _ = KernelStack::new();
    let _ = DoubleFaultStack::new();
}

#[test]
fn test_tss_descriptor_words() {
    let (low, high) = tss_descriptor(0x1234_5678_9ABC_DEF0);
    assert_eq!(low, 0x9A00_89BC_DEF0_0067);
    assert_eq!(high, 0x1234_5678);
}

#[test]
fn test_vga_writer_and_hex() {
    let mut w = VgaWriter::new();
    assert_eq!(w.cursor_pos(), 0);
    assert_eq!(w.cell(0), b' ');
    w.print_vga("Hi\nX");
    assert_eq!(w.cell(0), b'H');
    assert_eq!(w.cell(1), 0x07);
    assert_eq!(w.cell(2), b'i');
    assert_eq!(w.cell(160), b'X');
    assert_eq!(w.cursor_pos(), 81);
    w.clear_screen();
    assert_eq!(w.cell(0), b' ');
    assert_eq!(w.cursor_pos(), 0);
    assert_eq!(hex_nibble(9), b'9');
    assert_eq!(hex_nibble(10), b'A');
    assert_eq!(hex_line("cr3", 0x1A2B), b"cr3: 0000000000001A2B\n".to_vec());
}

#[test]
fn test_syscall_dispatch() {
    let table = SyscallTable::kernel_table();
    let mut mem = PhysicalMemory::new();
    let mut procs = ProcessTable::new();
    procs.spawn(&mut mem, &vec![0u8; 4096], "p").unwrap();
    kernel::process::set_current_pid(&mut procs, 1);
    let mut vga = VgaWriter::new();
    assert_eq!(syscall_dispatch(&table, &mut procs, &mut vga, &[], syscall_nr::GETPID, 0, 0, 0, 0, 0), Some(1));
    assert_eq!(syscall_dispatch(&table, &mut procs, &mut vga, &[], syscall_nr::VGA_WRITE, b'Q' as usize, 0, 0, 0, 0), Some(0));
    assert_eq!(vga.cell(0), b'Q');
    assert_eq!(syscall_dispatch(&table, &mut procs, &mut vga, b"ab", syscall_nr::WRITE, 1, 0x400000, 2, 0, 0), Some(2));
    assert_eq!(vga.cell(2), b'a');
    assert_eq!(syscall_dispatch(&table, &mut procs, &mut vga, b"ab", syscall_nr::WRITE, 3, 0x400000, 2, 0, 0), Some(-1));
    assert_eq!(syscall_dispatch(&table, &mut procs, &mut vga, &[], syscall_nr::VGA_CLEAR, 0, 0, 0, 0, 0), Some(0));
    assert_eq!(vga.cell(0), b' ');
    assert_eq!(syscall_dispatch(&table, &mut procs, &mut vga, &[], syscall_nr::IPC_SEND, 0, 0, 0, 0, 0), Some(-1));
    assert_eq!(syscall_dispatch(&table, &mut procs, &mut vga, &[], 200, 0, 0, 0, 0, 0), Some(-1));
    let mut custom = SyscallTable::new();
    custom.register(syscall_nr::IPC_SEND, SyscallHandler::GetPid);
    assert_eq!(syscall_dispatch(&custom, &mut procs, &mut vga, &[], syscall_nr::IPC_SEND, 0, 0, 0, 0, 0), Some(1));
}

fn message_bytes(msg_type: u16, first: u8) -> Vec<u8> {
    let mut b = vec![0u8; 64];
    b[2..4].copy_from_slice(&msg_type.to_le_bytes());
    b[4] = first;
    b
}

#[test]
fn test_syscall_ipc_send() {
    let table = SyscallTable::kernel_table();
    let mut mem = PhysicalMemory::new();
    let mut procs = ProcessTable::new();
    let a = procs.spawn(&mut mem, &vec![0u8; 4096], "a").unwrap();
    let b = procs.spawn(&mut mem, &vec![0u8; 4096], "b").unwrap();
    kernel::process::set_current_pid(&mut procs, a);
    let mut vga = VgaWriter::new();
    let msg = message_bytes(9, 42);
    // Without KEYBOARD_SEND (needed for PID 2) the send is refused.
    assert_eq!(syscall_dispatch(&table, &mut procs, &mut vga, &msg, syscall_nr::IPC_SEND, b as usize, 0, 0, 0, 0), Some(-1));
    assert!(procs.get_mut(b).unwrap().ipc_pop().is_none());
    assert!(kernel::capability::grant(&mut procs.get_mut(a).unwrap().capabilities, 1));
    assert_eq!(syscall_dispatch(&table, &mut procs, &mut vga, &msg, syscall_nr::IPC_SEND, b as usize, 0, 0, 0, 0), Some(0));
    let got = procs.get_mut(b).unwrap().ipc_pop().unwrap();
    assert_eq!(got.src_pid, a);
    assert_eq!(got.msg_type, 9);
    assert_eq!(got.data[0], 42);
    // A short message is refused.
    assert_eq!(syscall_dispatch(&table, &mut procs, &mut vga, &msg[..10], syscall_nr::IPC_SEND, b as usize, 0, 0, 0, 0), Some(-1));
}

#[test]
fn test_syscall_exit_terminates() {
    let table = SyscallTable::kernel_table();
    let mut mem = PhysicalMemory::new();
    let mut procs = ProcessTable::new();
    procs.spawn(&mut mem, &vec![0u8; 4096], "a").unwrap();
    procs.spawn(&mut mem, &vec![0u8; 4096], "b").unwrap();
    kernel::process::schedule_init(&mut procs).unwrap();
    let mut vga = VgaWriter::new();
    assert_eq!(syscall_dispatch(&table, &mut procs, &mut vga, &[], syscall_nr::EXIT, 0, 0, 0, 0, 0), None);
    assert_eq!(procs.get(1).unwrap().state, kernel::process::ProcessState::Terminated);
    assert_eq!(kernel::process::get_current_pid(&procs), 2);
    assert_eq!(procs.get(2).unwrap().state, kernel::process::ProcessState::Running);
}

#[test]
fn test_idt() {
    assert_eq!(get_idt_base(), 0x200000);
    let e = IdtEntry::new(0x1234_5678_9ABC_DEF0, 0x08);
    assert_eq!(e.offset_low, 0xDEF0);
    assert_eq!(e.offset_mid, 0x9ABC);
    assert_eq!(e.offset_high, 0x1234_5678);
    assert_eq!(e.selector, 0x08);
    let idt = build_idt(0xAAAA_0000, 0xBBBB_0000);
    assert_eq!(idt.len(), 256);
    assert_eq!(idt[0x80].offset_high, 0);
    assert_eq!(idt[0x80].offset_mid, 0xAAAA);
    assert_eq!(idt[0x20].offset_mid, 0xBBBB);
    assert_eq!(idt[0].offset_mid, 0);
    let _ = IdtEntry::null();
}

#[test]
fn test_tss_init() {
    let mut t = TaskStateSegment::new();
    let (low, high) = kernel::tss::init(&mut t, 0x9000, 0xA000, 0x1234_5678_9ABC_DEF0);
    assert_eq!(t.rsp0(), 0x9000);
    assert_eq!(t.ist1(), 0xA000);
    assert_eq!((low, high), tss_descriptor(0x1234_5678_9ABC_DEF0));
}

#[test]
fn test_syscall_msrs() {
    let m = kernel::syscall::syscall_msrs(0xFFFF_8000_0010_0000, 0x500);
    assert_eq!(m.star, 0x0008_0008_0000_0000);
    assert_eq!(m.lstar, 0xFFFF_8000_0010_0000);
    assert_eq!(m.sfmask, 0x200);
    assert_eq!(m.efer, 0x501);
}

#[test]
fn test_get_server_pid() {
    assert_eq!(kernel::syscall::sys_get_server_pid(kernel::syscall::SERVER_VGA, 1, 2), 1);
    assert_eq!(kernel::syscall::sys_get_server_pid(kernel::syscall::SERVER_KEYBOARD, 1, 2), 2);
    assert_eq!(kernel::syscall::sys_get_server_pid(7, 1, 2), -1);
}
