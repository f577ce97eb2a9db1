use kernel::process::IpcMessage;
use kernel::user_program::{
    apply_vga_command, key_from_reply, key_request, server_decode_scancode, shell_prompt_bytes, KeyboardAction,
    KeyboardServer, Shell, VgaCommand, VgaServer, MSG_KEY_EVENT, MSG_KEY_REQUEST, MSG_KEY_SCANCODE, MSG_VGA_CLEAR,
    MSG_VGA_PRINT,
};

fn msg(t: u16, b0: u8) -> IpcMessage {
    let mut d = [0u8; 60];
    d[0] = b0;
    IpcMessage::new(9, t, d)
}

#[test]
fn test_vga_server_print_and_newline() {
    let mut s = VgaServer::new();
    assert_eq!(s.handle_message(&msg(MSG_VGA_PRINT, b'A')), VgaCommand::PutCell { offset: 0, byte: b'A' });
    assert_eq!(s.cursor, 1);
    assert_eq!(s.handle_message(&msg(MSG_VGA_PRINT, b'\n')), VgaCommand::Nothing);
    assert_eq!(s.cursor, 80);
    assert_eq!(s.handle_message(&msg(MSG_VGA_PRINT, b'B')), VgaCommand::PutCell { offset: 160, byte: b'B' });
    assert_eq!(s.handle_message(&msg(MSG_VGA_PRINT, b'\r')), VgaCommand::Nothing);
    assert_eq!(s.cursor, 80);
    assert_eq!(s.handle_message(&msg(99, b'C')), VgaCommand::Nothing);
    assert_eq!(s.cursor, 80);
    assert_eq!(s.handle_message(&msg(MSG_VGA_CLEAR, 0)), VgaCommand::ClearScreen);
    assert_eq!(s.cursor, 0);
}

#[test]
fn test_vga_server_last_row_and_full_screen() {
    let mut s = VgaServer::new();
    s.cursor = 24 * 80 + 5;
    s.handle_message(&msg(MSG_VGA_PRINT, b'\n'));
    assert_eq!(s.cursor, 0);
    s.cursor = 2000;
    assert_eq!(s.handle_message(&msg(MSG_VGA_PRINT, b'x')), VgaCommand::Nothing);
    assert_eq!(s.cursor, 2000);
}

#[test]
fn test_apply_vga_command() {
    let mut screen = vec![0u8; 4000];
    apply_vga_command(&mut screen, VgaCommand::PutCell { offset: 10, byte: b'Z' });
    assert_eq!(screen[10], b'Z');
    assert_eq!(screen[11], 0x07);
    apply_vga_command(&mut screen, VgaCommand::ClearScreen);
    assert_eq!(screen[10], b' ');
    assert_eq!(screen[3999], 0x07);
    apply_vga_command(&mut screen, VgaCommand::Nothing);
    assert_eq!(screen[0], b' ');
}

#[test]
fn test_server_decode_scancode() {
    assert_eq!(server_decode_scancode(0x02), Some(b'1'));
    assert_eq!(server_decode_scancode(0x10), Some(b'q'));
    assert_eq!(server_decode_scancode(0x1C), Some(b'\n'));
    assert_eq!(server_decode_scancode(0x1E), Some(b'a'));
    assert_eq!(server_decode_scancode(0x28), Some(b'\''));
    assert_eq!(server_decode_scancode(0x29), Some(b'`'));
    assert_eq!(server_decode_scancode(0x2B), Some(b'\\'));
    assert_eq!(server_decode_scancode(0x35), Some(b'/'));
    assert_eq!(server_decode_scancode(0x39), Some(b' '));
    assert_eq!(server_decode_scancode(0x0E), Some(0x08));
    assert_eq!(server_decode_scancode(0x01), None);
    assert_eq!(server_decode_scancode(0x3A), None);
}

fn reply_of(a: KeyboardAction) -> (u16, IpcMessage) {
    match a {
        KeyboardAction::Reply { dst, reply } => (dst, reply),
        _ => panic!("expected a reply"),
    }
}

#[test]
fn test_keyboard_server_buffers_in_order() {
    let mut k = KeyboardServer::new();
    assert!(matches!(k.handle_message(&msg(MSG_KEY_SCANCODE, 0x1E)), KeyboardAction::Echo(b'a')));
    assert!(matches!(k.handle_message(&msg(MSG_KEY_SCANCODE, 0x30)), KeyboardAction::Echo(b'b')));
    // Break codes and unknown codes are ignored.
    assert!(matches!(k.handle_message(&msg(MSG_KEY_SCANCODE, 0x9E)), KeyboardAction::Nothing));
    assert!(matches!(k.handle_message(&msg(MSG_KEY_SCANCODE, 0x01)), KeyboardAction::Nothing));
    let (dst, r) = reply_of(k.handle_message(&msg(MSG_KEY_REQUEST, 0)));
    assert_eq!(dst, 9);
    assert_eq!(r.msg_type, MSG_KEY_EVENT);
    assert_eq!(r.data[0], b'a');
    assert_eq!(r.data[1], 1);
    let (_, r) = reply_of(k.handle_message(&msg(MSG_KEY_REQUEST, 0)));
    assert_eq!(r.data[0], b'b');
    let (_, r) = reply_of(k.handle_message(&msg(MSG_KEY_REQUEST, 0)));
    assert_eq!(r.data[0], 0);
    assert_eq!(r.data[1], 0);
    assert!(matches!(k.handle_message(&msg(77, 0)), KeyboardAction::Nothing));
}

#[test]
fn test_keyboard_server_drops_when_full() {
    let mut k = KeyboardServer::new();
    for _ in 0..15 {
        k.handle_message(&msg(MSG_KEY_SCANCODE, 0x1E));
    }
    // The sixteenth key is echoed but not buffered.
    assert!(matches!(k.handle_message(&msg(MSG_KEY_SCANCODE, 0x30)), KeyboardAction::Echo(b'b')));
    for _ in 0..15 {
        let (_, r) = reply_of(k.handle_message(&msg(MSG_KEY_REQUEST, 0)));
        assert_eq!(r.data[0], b'a');
    }
    let (_, r) = reply_of(k.handle_message(&msg(MSG_KEY_REQUEST, 0)));
    assert_eq!(r.data[1], 0);
}

#[test]
fn test_shell_line_editing() {
    let mut sh = Shell::new();
    assert_eq!(shell_prompt_bytes(), b"Shell> ".to_vec());
    assert_eq!(sh.on_key(b'h'), vec![b'h']);
    assert_eq!(sh.on_key(b'i'), vec![b'i']);
    assert_eq!(sh.on_key(b'x'), vec![b'x']);
    assert_eq!(sh.on_key(0x08), vec![0x08]);
    assert_eq!(sh.on_key(b'\n'), b"\nEcho: hi\nShell> ".to_vec());
    assert_eq!(sh.on_key(b'\r'), b"\nShell> ".to_vec());
    assert_eq!(sh.on_key(0x08), Vec::<u8>::new());
}

#[test]
fn test_shell_line_limit() {
    let mut sh = Shell::new();
    for _ in 0..130 {
        assert_eq!(sh.on_key(b'a'), vec![b'a']);
    }
    let out = sh.on_key(b'\n');
    // 127 bytes were kept.
    assert_eq!(out.len(), 1 + 6 + 127 + 1 + 7);
}

#[test]
fn test_key_request_and_reply() {
    let req = key_request();
    assert_eq!(req.msg_type, MSG_KEY_REQUEST);
    assert_eq!(req.src_pid, 0);
    assert_eq!(req.data, [0u8; 60]);
    let mut d = [0u8; 60];
    d[0] = b'k';
    d[1] = 1;
    let reply = IpcMessage::new(2, MSG_KEY_EVENT, d);
    assert_eq!(key_from_reply(64, &reply), Some(b'k'));
    assert_eq!(key_from_reply(0, &reply), None);
    assert_eq!(key_from_reply(-1, &reply), None);
    d[1] = 0;
    assert_eq!(key_from_reply(64, &IpcMessage::new(2, MSG_KEY_EVENT, d)), None);
    assert_eq!(key_from_reply(64, &IpcMessage::new(2, 3, [1u8; 60])), None);
}
