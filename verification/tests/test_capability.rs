use kernel::capability::{check_ipc_send, grant, has, revoke};
use kernel::capability::cap_id::{DRIVER_SEND, KEYBOARD_SEND, VGA_SEND};
use kernel::paging::PhysicalMemory;
use kernel::process::{IpcMessage, IpcSendError, ProcessTable};

fn code_page() -> Vec<u8> {
    vec![0x90u8; 4096]
}

#[test]
fn test_unauthorized_ipc() {
    // Two processes: the sender has no capability, the receiver holds VGA_SEND.
    let mut mem = PhysicalMemory::new();
    let mut table = ProcessTable::new();
    let code = code_page();
    let pid_sender = table.spawn(&mut mem, &code, "sender").unwrap();
    let pid_receiver = table.spawn(&mut mem, &code, "receiver").unwrap();
    assert_eq!(pid_sender, 1);
    assert_eq!(pid_receiver, 2);

    assert!(grant(&mut table.get_mut(pid_receiver).unwrap().capabilities, VGA_SEND));

    let msg = IpcMessage::new(0, 1, [0u8; 60]);
    let result = table.ipc_send(pid_sender, pid_receiver, msg);
    assert!(result.is_err(), "Sender should not be able to send IPC without capability");
}

#[test]
fn test_grant_has_revoke() {
    let mut caps: u64 = 0;
    assert!(!has(caps, VGA_SEND));
    assert!(grant(&mut caps, VGA_SEND));
    assert_eq!(caps, 1);
    assert!(has(caps, VGA_SEND));
    assert!(grant(&mut caps, DRIVER_SEND));
    assert_eq!(caps, 0b1001);
    assert!(revoke(&mut caps, VGA_SEND));
    assert_eq!(caps, 0b1000);
    assert!(!has(caps, VGA_SEND));
    assert!(has(caps, DRIVER_SEND));
}

#[test]
fn test_grant_revoke_out_of_range() {
    let mut caps: u64 = 5;
    assert!(!grant(&mut caps, 64));
    assert_eq!(caps, 5);
    assert!(!revoke(&mut caps, 100));
    assert_eq!(caps, 5);
    assert!(!has(u64::MAX, 64));
}

#[test]
fn test_grant_revoke_round_trip_values() {
    let original: u64 = 0xF0F0;
    let mut caps = original;
    assert!(grant(&mut caps, 3));
    assert!(revoke(&mut caps, 3));
    assert_eq!(caps, original);
    let mut held = original;
    assert!(revoke(&mut held, 4));
    assert!(grant(&mut held, 4));
    assert_eq!(held, original);
}

#[test]
fn test_check_ipc_send_mapping() {
    assert!(check_ipc_send(0, 0));
    assert!(!check_ipc_send(0, 1));
    assert!(check_ipc_send(1 << VGA_SEND, 1));
    assert!(!check_ipc_send(1 << VGA_SEND, 2));
    assert!(check_ipc_send(1 << KEYBOARD_SEND, 2));
    assert!(!check_ipc_send(1 << KEYBOARD_SEND, 7));
    assert!(check_ipc_send(1 << DRIVER_SEND, 7));
}

#[test]
fn test_ipc_send_delivers_with_sender_pid() {
    let mut mem = PhysicalMemory::new();
    let mut table = ProcessTable::new();
    let code = code_page();
    let a = table.spawn(&mut mem, &code, "a").unwrap();
    let b = table.spawn(&mut mem, &code, "b").unwrap();
    assert!(grant(&mut table.get_mut(a).unwrap().capabilities, KEYBOARD_SEND));
    let mut data = [0u8; 60];
    data[0] = 42;
    let msg = IpcMessage::new(99, 7, data);
    assert_eq!(table.ipc_send(a, b, msg), Ok(()));
    let got = table.get_mut(b).unwrap().ipc_pop().unwrap();
    assert_eq!(got.src_pid, a);
    assert_eq!(got.msg_type, 7);
    assert_eq!(got.data[0], 42);
    assert!(table.get_mut(b).unwrap().ipc_pop().is_none());
}

#[test]
fn test_ipc_send_errors() {
    let mut mem = PhysicalMemory::new();
    let mut table = ProcessTable::new();
    let code = code_page();
    let a = table.spawn(&mut mem, &code, "a").unwrap();
    let b = table.spawn(&mut mem, &code, "b").unwrap();
    let msg = IpcMessage::new(0, 1, [0u8; 60]);
    assert_eq!(table.ipc_send(9, b, msg), Err(IpcSendError::NoSender));
    assert_eq!(table.ipc_send(a, b, msg), Err(IpcSendError::PermissionDenied));
    assert!(grant(&mut table.get_mut(a).unwrap().capabilities, DRIVER_SEND));
    assert_eq!(table.ipc_send(a, 9, msg), Err(IpcSendError::NoReceiver));
    // Fifteen messages fill a queue; the sixteenth is refused.
    assert!(grant(&mut table.get_mut(a).unwrap().capabilities, KEYBOARD_SEND));
    for _ in 0..15 {
        assert_eq!(table.ipc_send(a, b, msg), Ok(()));
    }
    assert_eq!(table.ipc_send(a, b, msg), Err(IpcSendError::QueueFull));
}
