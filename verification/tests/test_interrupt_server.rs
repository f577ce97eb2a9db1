use kernel::interrupt_server::{forward_irq, translate_scancode, IrqHandlers, MSG_HW_IRQ, MSG_IRQ_DATA, MSG_KEY_SCANCODE};
use kernel::paging::PhysicalMemory;
use kernel::process::ProcessTable;

#[test]
fn test_register_and_unregister_handler() {
    let mut irqs = IrqHandlers::new();
    // Fresh IRQ should have no handlers
    assert!(!irqs.has_handler(1));

    // Register a handler PID for keyboard IRQ (IRQ 1)
    assert!(irqs.register_handler(1, 42));
    assert!(irqs.has_handler(1));

    // Unregister it again
    assert!(irqs.unregister_handler(1, 42));
    assert!(!irqs.has_handler(1));
}

#[test]
fn test_irq_out_of_range() {
    let mut irqs = IrqHandlers::new();
    // IRQs >= BASE_IRQ_COUNT should be rejected
    assert!(!irqs.register_handler(99, 42));
    assert!(!irqs.unregister_handler(99, 42));
}

#[test]
fn test_double_register() {
    let mut irqs = IrqHandlers::new();
    assert!(irqs.register_handler(1, 100));
    // Registering the same PID again should also succeed
    assert!(irqs.register_handler(1, 100));
    // Clean up
    assert!(irqs.unregister_handler(1, 100));
    assert!(irqs.unregister_handler(1, 100));
}

#[test]
fn test_handler_slots_fill_up() {
    let mut irqs = IrqHandlers::new();
    for pid in 1..=4u16 {
        assert!(irqs.register_handler(2, pid));
    }
    assert!(!irqs.register_handler(2, 5));
    assert_eq!(irqs.get_handlers(2), vec![1u16, 2, 3, 4]);
    assert!(!irqs.unregister_handler(2, 9));
    assert!(!irqs.register_handler(0, 0));
    assert_eq!(irqs.get_handlers(3), vec![0u16, 0, 0, 0]);
    assert_eq!(irqs.get_handlers(9), Vec::<u16>::new());
}

#[test]
fn test_interrupt_server_pid() {
    let mut irqs = IrqHandlers::new();
    assert_eq!(irqs.get_interrupt_server_pid(), 0);
    irqs.set_interrupt_server_pid(5);
    assert_eq!(irqs.get_interrupt_server_pid(), 5);
}

#[test]
fn test_forward_irq_to_handlers() {
    let mut mem = PhysicalMemory::new();
    let mut table = ProcessTable::new();
    let code = vec![0u8; 4096];
    let p1 = table.spawn(&mut mem, &code, "kbd").unwrap();
    let p2 = table.spawn(&mut mem, &code, "other").unwrap();
    let mut irqs = IrqHandlers::new();
    assert!(irqs.register_handler(1, p1));
    assert!(irqs.register_handler(3, p2));
    let mut data = [0u8; 60];
    data[0] = 0x1E;
    forward_irq(&irqs, &mut table, 1, &data);
    let m = table.get_mut(p1).unwrap().ipc_pop().unwrap();
    assert_eq!(m.msg_type, MSG_KEY_SCANCODE);
    assert_eq!(m.data[0], 0x1E);
    forward_irq(&irqs, &mut table, 3, &data);
    let m = table.get_mut(p2).unwrap().ipc_pop().unwrap();
    assert_eq!(m.msg_type, MSG_IRQ_DATA);
    assert!(table.get_mut(p1).unwrap().ipc_pop().is_none());
}

#[test]
fn test_forward_irq_to_interrupt_server() {
    let mut mem = PhysicalMemory::new();
    let mut table = ProcessTable::new();
    let code = vec![0u8; 4096];
    let server = table.spawn(&mut mem, &code, "isr").unwrap();
    let mut irqs = IrqHandlers::new();
    irqs.set_interrupt_server_pid(server);
    let mut data = [0u8; 60];
    data[0] = 0xAB;
    data[58] = 0xCD;
    data[59] = 0xEF;
    forward_irq(&irqs, &mut table, 1, &data);
    let m = table.get_mut(server).unwrap().ipc_pop().unwrap();
    assert_eq!(m.msg_type, MSG_HW_IRQ);
    assert_eq!(m.data[0], 1);
    assert_eq!(m.data[1], 0xAB);
    assert_eq!(m.data[59], 0xCD);
}

#[test]
fn test_translate_scancode() {
    assert_eq!(translate_scancode(0x02), b'1');
    assert_eq!(translate_scancode(0x10), b'q');
    assert_eq!(translate_scancode(0x1E), b'a');
    assert_eq!(translate_scancode(0x39), b' ');
    assert_eq!(translate_scancode(0x1C), b'\n');
    assert_eq!(translate_scancode(0x0E), 0x08);
    assert_eq!(translate_scancode(0x0F), b'\t');
    assert_eq!(translate_scancode(0x00), b'?');
    assert_eq!(translate_scancode(0x9E), b'?');
}

#[test]
fn test_forward_irq_duplicate_handler_and_full_queue() {
    let mut mem = PhysicalMemory::new();
    let mut table = ProcessTable::new();
    let code = vec![0u8; 4096];
    let p = table.spawn(&mut mem, &code, "drv").unwrap();
    let mut irqs = IrqHandlers::new();
    assert!(irqs.register_handler(2, p));
    assert!(irqs.register_handler(2, p));
    let data = [7u8; 60];
    // Two handler slots name the same process: it receives two messages.
    forward_irq(&irqs, &mut table, 2, &data);
    for _ in 0..6 {
        forward_irq(&irqs, &mut table, 2, &data);
    }
    // 14 messages queued; the next IRQ fits one more and drops the other.
    forward_irq(&irqs, &mut table, 2, &data);
    let mut n = 0;
    while let Some(m) = table.get_mut(p).unwrap().ipc_pop() {
        assert_eq!(m.msg_type, MSG_IRQ_DATA);
        assert_eq!(m.src_pid, 0);
        n += 1;
    }
    assert_eq!(n, 15);
}
