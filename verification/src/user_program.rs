//! The decisions of the built-in user-space programs: the VGA display
//! server, the keyboard server and the shell. Each is a state machine fed
//! one received message or key at a time; the loops that receive, yield
//! and perform the resulting actions through system calls run outside.

use vstd::prelude::*;
use crate::keyboard::{key_char, KeyEvent, spec_decode_scancode, law_decode_follows_layout};
use crate::process::IpcMessage;

verus! {

/// Columns of the text screen.
pub const VGA_COLS: usize = 80;
/// Rows of the text screen.
pub const VGA_ROWS: usize = 25;
/// Bytes of the text buffer: a character and an attribute per cell.
pub const VGA_BUFFER_BYTES: usize = 4000;
/// Attribute of a written cell: light grey on black.
pub const VGA_ATTR: u8 = 0x07;

/// Message to the VGA server: print the character in `data[0]`.
pub const MSG_VGA_PRINT: u16 = 1;
/// Message to the VGA server: clear the screen.
pub const MSG_VGA_CLEAR: u16 = 2;
/// Message to the keyboard server: a raw scan code in `data[0]`.
pub const MSG_KEY_SCANCODE: u16 = 3;
/// Message to the keyboard server: a client asks for a key.
pub const MSG_KEY_REQUEST: u16 = 4;
/// Reply of the keyboard server: `data[1] == 1` when `data[0]` is a key.
pub const MSG_KEY_EVENT: u16 = 5;

/// Capacity of the keyboard server's ring buffer (one slot stays free).
pub const KEY_BUF_CAPACITY: usize = 16;
/// Size of the shell's line buffer (one byte stays unused).
pub const LINE_BUF_SIZE: usize = 128;

// ---------------------------------------------------------------------------
// VGA server
// ---------------------------------------------------------------------------

/// What the VGA server does to the text buffer after a message.
#[derive(Clone, Copy, PartialEq, Eq, Structural, Debug)]
pub enum VgaCommand {
    /// Nothing.
    Nothing,
    /// Write `byte` at `offset` and the attribute `VGA_ATTR` after it.
    PutCell { offset: usize, byte: u8 },
    /// Fill every cell with a space and the attribute `VGA_ATTR`.
    ClearScreen,
}

/// The VGA server's state: the cursor's cell index.
pub struct VgaServer {
    pub cursor: usize,
}

/// The VGA server's next cursor and command for a message of type
/// `msg_type` whose first data byte is `byte`: a newline moves to the next
/// row's start (to the top from the last row), a carriage return to the
/// current row's start, any other character is written at the cursor
/// and advances it while the cursor is on screen; a clear message clears
/// and homes the cursor; other messages are ignored.
pub open spec fn vga_server_step(cursor: usize, msg_type: u16, byte: u8) -> (usize, VgaCommand) {
    if msg_type == MSG_VGA_PRINT {
        if byte == 10 {
            let row = cursor / VGA_COLS;
            (if row < VGA_ROWS - 1 { ((row + 1) * VGA_COLS) as usize } else { 0usize }, VgaCommand::Nothing)
        } else if byte == 13 {
            (((cursor / VGA_COLS) * VGA_COLS) as usize, VgaCommand::Nothing)
        } else if cursor < VGA_COLS * VGA_ROWS {
            ((cursor + 1) as usize, VgaCommand::PutCell { offset: (cursor * 2) as usize, byte })
        } else {
            (cursor, VgaCommand::Nothing)
        }
    } else if msg_type == MSG_VGA_CLEAR {
        (0usize, VgaCommand::ClearScreen)
    } else {
        (cursor, VgaCommand::Nothing)
    }
}

impl VgaServer {
    /// The server with the cursor at the top left.
    pub fn new() -> (s: Self)
        ensures
            s.cursor == 0,
    {
        VgaServer { cursor: 0 }
    }

    /// Handle one received message (see `vga_server_step`).
    pub fn handle_message(&mut self, msg: &IpcMessage) -> (cmd: VgaCommand)
        ensures
            (final(self).cursor, cmd) == vga_server_step(old(self).cursor, msg.msg_type, msg.data@[0]),
    {
        let cursor = self.cursor;
        if msg.msg_type == MSG_VGA_PRINT {
            let byte = msg.data[0];
            if byte == 10 {
                let row = cursor / VGA_COLS;
                self.cursor = if row < VGA_ROWS - 1 { (row + 1) * VGA_COLS } else { 0 };
                VgaCommand::Nothing
            } else if byte == 13 {
                let row = cursor / VGA_COLS;
                self.cursor = row * VGA_COLS;
                VgaCommand::Nothing
            } else if cursor < VGA_COLS * VGA_ROWS {
                self.cursor = cursor + 1;
                VgaCommand::PutCell { offset: cursor * 2, byte }
            } else {
                VgaCommand::Nothing
            }
        } else if msg.msg_type == MSG_VGA_CLEAR {
            self.cursor = 0;
            VgaCommand::ClearScreen
        } else {
            VgaCommand::Nothing
        }
    }
}

/// The VGA server's cursor never leaves the screen once on it, and every
/// cell it writes lies inside the text buffer.
pub proof fn law_vga_cursor_stays_on_screen(cursor: usize, msg_type: u16, byte: u8)
    requires
        cursor <= VGA_COLS * VGA_ROWS,
    ensures
        vga_server_step(cursor, msg_type, byte).0 <= VGA_COLS * VGA_ROWS,
        vga_server_step(cursor, msg_type, byte).1 matches VgaCommand::PutCell { offset, byte: b }
            ==> offset + 1 < VGA_BUFFER_BYTES,
{
    let row = cursor / VGA_COLS;
    assert(row <= VGA_ROWS);
    assert(row < VGA_ROWS - 1 ==> (row + 1) * VGA_COLS <= VGA_COLS * VGA_ROWS) by (nonlinear_arith)
        requires row <= VGA_ROWS;
    assert(row * VGA_COLS <= cursor) by (nonlinear_arith)
        requires row == cursor / VGA_COLS;
}

/// How the VGA server moves its cursor, for every cursor on the screen
/// (cells 0..2000, 80 per row): a newline on rows 0 to 23 goes to the start
/// of the next row, and only one on the last row (24) wraps to the top; a
/// carriage return goes to the start of the row; a printable byte is
/// written at the cursor's cell (byte offset twice the cell) and moves one
/// cell on; a clear homes the cursor; any other message changes nothing.
pub proof fn law_vga_server_cursor(cursor: usize, byte: u8, msg_type: u16)
    requires
        cursor < 2000,
    ensures
        cursor < 1920 ==> vga_server_step(cursor, MSG_VGA_PRINT, 10) == ((cursor - cursor % 80 + 80) as usize, VgaCommand::Nothing),
        cursor >= 1920 ==> vga_server_step(cursor, MSG_VGA_PRINT, 10) == (0usize, VgaCommand::Nothing),
        vga_server_step(cursor, MSG_VGA_PRINT, 13) == ((cursor - cursor % 80) as usize, VgaCommand::Nothing),
        byte != 10 && byte != 13 ==> vga_server_step(cursor, MSG_VGA_PRINT, byte)
            == ((cursor + 1) as usize, VgaCommand::PutCell { offset: (2 * cursor) as usize, byte }),
        vga_server_step(cursor, MSG_VGA_CLEAR, byte) == (0usize, VgaCommand::ClearScreen),
        msg_type != MSG_VGA_PRINT && msg_type != MSG_VGA_CLEAR ==> vga_server_step(cursor, msg_type, byte) == (cursor, VgaCommand::Nothing),
{
    let row = cursor / 80;
    assert(row * 80 + cursor % 80 == cursor);
    assert(cursor < 1920 ==> row < 24);
    assert(cursor >= 1920 ==> row >= 24);
    assert((row + 1) * 80 == row * 80 + 80);
}

/// The text buffer `screen` after `cmd`.
pub open spec fn screen_after_command(screen: Seq<u8>, cmd: VgaCommand) -> Seq<u8> {
    match cmd {
        VgaCommand::Nothing => screen,
        VgaCommand::PutCell { offset, byte } => screen.update(offset as int, byte).update(offset + 1, VGA_ATTR),
        VgaCommand::ClearScreen => Seq::new(screen.len(), |i: int| if i % 2 == 0 { 32u8 } else { VGA_ATTR }),
    }
}

/// What the VGA server's commands do to the text buffer: writing a cell
/// stores the character at the even byte and the light-grey-on-black
/// attribute (7) after it, changing nothing else; clearing makes every
/// character a space (32) with attribute 7; doing nothing keeps the buffer.
pub proof fn law_vga_commands(screen: Seq<u8>, offset: usize, byte: u8, i: int)
    requires
        screen.len() == 4000,
        offset + 1 < 4000,
        0 <= i < 4000,
    ensures
        screen_after_command(screen, VgaCommand::PutCell { offset, byte })[i]
            == if i == offset { byte } else if i == offset + 1 { 7u8 } else { screen[i] },
        screen_after_command(screen, VgaCommand::PutCell { offset, byte }).len() == 4000,
        screen_after_command(screen, VgaCommand::ClearScreen).len() == 4000,
        screen_after_command(screen, VgaCommand::ClearScreen)[i] == if i % 2 == 0 { 32u8 } else { 7u8 },
        screen_after_command(screen, VgaCommand::Nothing) == screen,
{
}

/// Carry out `cmd` on the text buffer `screen`.
pub fn apply_vga_command(screen: &mut [u8], cmd: VgaCommand)
    requires
        old(screen)@.len() == VGA_BUFFER_BYTES,
        cmd matches VgaCommand::PutCell { offset, byte } ==> offset + 1 < VGA_BUFFER_BYTES,
    ensures
        final(screen)@ == screen_after_command(old(screen)@, cmd),
{
    match cmd {
        VgaCommand::Nothing => {},
        VgaCommand::PutCell { offset, byte } => {
            screen[offset] = byte;
            screen[offset + 1] = VGA_ATTR;
        },
        VgaCommand::ClearScreen => {
            let mut i: usize = 0;
            while i < VGA_BUFFER_BYTES
                invariant
                    screen@.len() == VGA_BUFFER_BYTES,
                    i <= VGA_BUFFER_BYTES,
                    i % 2 == 0,
                    forall|k: int| 0 <= k < i ==> #[trigger] screen@[k] == if k % 2 == 0 { 32u8 } else { VGA_ATTR },
                decreases VGA_BUFFER_BYTES - i,
            {
                screen[i] = 32;
                screen[i + 1] = VGA_ATTR;
                i += 2;
            }
            assert(screen@ =~= screen_after_command(old(screen)@, cmd));
        },
    }
}

// ---------------------------------------------------------------------------
// Keyboard server
// ---------------------------------------------------------------------------

/// The keyboard server's decoding of a make code: Enter is a newline,
/// Backspace is 0x08, and the character keys follow `key_char`.
pub open spec fn spec_server_decode(sc: u8) -> Option<u8> {
    if sc == 0x1C {
        Some(10u8)
    } else if sc == 0x0E {
        Some(8u8)
    } else {
        key_char(sc)
    }
}

/// The keyboard server decodes as the kernel's decoder does: the
/// character of a character key, a newline for Enter, 0x08 for
/// Backspace, and nothing for a code without a key.
pub proof fn law_server_decode_agrees(sc: u8)
    ensures
        spec_server_decode(sc) == match spec_decode_scancode(sc) {
            Some(KeyEvent::Char(c)) => Some(c),
            Some(KeyEvent::Enter) => Some(10u8),
            Some(KeyEvent::Backspace) => Some(8u8),
            None => None::<u8>,
        },
{
    law_decode_follows_layout(sc);
}

/// Decode a make code for the keyboard server (see `spec_server_decode`).
pub fn server_decode_scancode(sc: u8) -> (r: Option<u8>)
    ensures
        r == spec_server_decode(sc),
{
    let row_num: [u8; 12] = [49, 50, 51, 52, 53, 54, 55, 56, 57, 48, 45, 61];
    let row_qwerty: [u8; 12] = [113, 119, 101, 114, 116, 121, 117, 105, 111, 112, 91, 93];
    let row_asdf: [u8; 12] = [97, 115, 100, 102, 103, 104, 106, 107, 108, 59, 39, 96];
    let row_zxcv: [u8; 10] = [122, 120, 99, 118, 98, 110, 109, 44, 46, 47];
    if 0x02 <= sc && sc <= 0x0D {
        let c = row_num[(sc - 0x02) as usize];
        assert(c == crate::keyboard::number_row()[sc - 0x02]);
        Some(c)
    } else if 0x10 <= sc && sc <= 0x1B {
        let c = row_qwerty[(sc - 0x10) as usize];
        assert(c == crate::keyboard::qwerty_row()[sc - 0x10]);
        Some(c)
    } else if sc == 0x1C {
        Some(10)
    } else if 0x1E <= sc && sc <= 0x29 {
        let c = row_asdf[(sc - 0x1E) as usize];
        assert(c == crate::keyboard::asdf_row()[sc - 0x1E]);
        Some(c)
    } else if sc == 0x2B {
        Some(92)
    } else if 0x2C <= sc && sc <= 0x35 {
        let c = row_zxcv[(sc - 0x2C) as usize];
        assert(c == crate::keyboard::zxcv_row()[sc - 0x2C]);
        Some(c)
    } else if sc == 0x39 {
        Some(32)
    } else if sc == 0x0E {
        Some(8)
    } else {
        None
    }
}

/// The payload of a key reply: the key, then 1 when it is one (0 when
/// none was buffered), then zeros.
pub open spec fn key_reply_data(ch: u8, available: u8) -> Seq<u8> {
    Seq::new(60, |i: int| if i == 0 { ch } else if i == 1 { available } else { 0u8 })
}

/// What the keyboard server does after a message.
#[derive(Clone, Copy)]
pub enum KeyboardAction {
    /// Nothing.
    Nothing,
    /// Print the decoded key on the screen.
    Echo(u8),
    /// Send `reply` to process `dst`.
    Reply { dst: u16, reply: IpcMessage },
}

/// The keyboard server's state: a ring buffer of decoded keys.
pub struct KeyboardServer {
    key_buf: [u8; 16],
    head: usize,
    tail: usize,
}

impl View for KeyboardServer {
    type V = Seq<u8>;

    /// The buffered keys, oldest first.
    closed spec fn view(&self) -> Seq<u8> {
        if self.head <= self.tail {
            self.key_buf@.subrange(self.head as int, self.tail as int)
        } else {
            self.key_buf@.subrange(self.head as int, KEY_BUF_CAPACITY as int)
                + self.key_buf@.subrange(0, self.tail as int)
        }
    }
}

impl KeyboardServer {
    /// Both ends of the ring lie inside it.
    pub closed spec fn wf(&self) -> bool {
        self.head < KEY_BUF_CAPACITY && self.tail < KEY_BUF_CAPACITY
    }

    /// A server with no buffered key.
    pub fn new() -> (s: Self)
        ensures
            s.wf(),
            s@ == Seq::<u8>::empty(),
    {
        let s = KeyboardServer { key_buf: [0u8; 16], head: 0, tail: 0 };
        assert(s@ =~= Seq::<u8>::empty());
        s
    }

    proof fn lemma_len(&self)
        requires
            self.wf(),
        ensures
            self@.len() < KEY_BUF_CAPACITY,
            self@.len() == (self.tail - self.head + KEY_BUF_CAPACITY) % (KEY_BUF_CAPACITY as int),
    {
    }

    /// Handle one received message. A scan code (type 3) that is a make
    /// code with a key (see `spec_server_decode`) is buffered unless 15
    /// keys are waiting, and echoed either way; other scan codes are
    /// ignored. A key request (type 4) is answered to its sender with the
    /// oldest key, which leaves the buffer, or with an empty reply. Other
    /// messages are ignored.
    pub fn handle_message(&mut self, msg: &IpcMessage) -> (action: KeyboardAction)
        requires
            old(self).wf(),
        ensures
            final(self).wf(),
            msg.msg_type == MSG_KEY_SCANCODE ==> {
                let sc = msg.data@[0];
                if sc < 0x80 && spec_server_decode(sc) is Some {
                    let ch = spec_server_decode(sc)->0;
                    &&& action matches KeyboardAction::Echo(c) && c == ch
                    &&& final(self)@ == if old(self)@.len() < KEY_BUF_CAPACITY - 1 { old(self)@.push(ch) } else { old(self)@ }
                } else {
                    &&& action is Nothing
                    &&& final(self)@ == old(self)@
                }
            },
            msg.msg_type == MSG_KEY_REQUEST ==> {
                &&& action matches KeyboardAction::Reply { dst, reply } && dst == msg.src_pid
                    && reply.src_pid == 0 && reply.msg_type == MSG_KEY_EVENT
                    && reply.data@ == if old(self)@.len() > 0 { key_reply_data(old(self)@[0], 1) } else { key_reply_data(0, 0) }
                &&& final(self)@ == if old(self)@.len() > 0 { old(self)@.drop_first() } else { old(self)@ }
            },
            msg.msg_type != MSG_KEY_SCANCODE && msg.msg_type != MSG_KEY_REQUEST ==> {
                &&& action is Nothing
                &&& final(self)@ == old(self)@
            },
    {
        proof { old(self).lemma_len(); }
        if msg.msg_type == MSG_KEY_SCANCODE {
            let sc = msg.data[0];
            if sc & 0x80 == 0 {
                assert(sc < 0x80) by (bit_vector)
                    requires sc & 0x80u8 == 0u8;
                match server_decode_scancode(sc) {
                    Some(ch) => {
                        let next = (self.tail + 1) % KEY_BUF_CAPACITY;
                        if next != self.head {
                            let ghost before = self@;
                            self.key_buf[self.tail] = ch;
                            self.tail = next;
                            assert(self@ =~= before.push(ch));
                        }
                        KeyboardAction::Echo(ch)
                    },
                    None => KeyboardAction::Nothing,
                }
            } else {
                assert(sc >= 0x80) by (bit_vector)
                    requires sc & 0x80u8 != 0u8;
                KeyboardAction::Nothing
            }
        } else if msg.msg_type == MSG_KEY_REQUEST {
            let mut d = [0u8; 60];
            if self.head != self.tail {
                let ghost before = self@;
                let ch = self.key_buf[self.head];
                self.head = (self.head + 1) % KEY_BUF_CAPACITY;
                assert(self@ =~= before.drop_first());
                d[0] = ch;
                d[1] = 1;
                assert(d@ =~= key_reply_data(before[0], 1));
            } else {
                assert(d@ =~= key_reply_data(0, 0));
            }
            let reply = IpcMessage::new(0, MSG_KEY_EVENT, d);
            KeyboardAction::Reply { dst: msg.src_pid, reply }
        } else {
            KeyboardAction::Nothing
        }
    }
}

// ---------------------------------------------------------------------------
// Shell
// ---------------------------------------------------------------------------

/// The shell's prompt, `"Shell> "`.
pub open spec fn shell_prompt() -> Seq<u8> {
    seq![83u8, 104u8, 101u8, 108u8, 108u8, 62u8, 32u8]
}

/// The prefix of an echoed line, `"Echo: "`.
pub open spec fn echo_prefix() -> Seq<u8> {
    seq![69u8, 99u8, 104u8, 111u8, 58u8, 32u8]
}

/// The shell's state: the line typed so far.
pub struct Shell {
    line_buf: [u8; 128],
    line_len: usize,
}

impl View for Shell {
    type V = Seq<u8>;

    /// The current line.
    closed spec fn view(&self) -> Seq<u8> {
        self.line_buf@.subrange(0, self.line_len as int)
    }
}

/// Append the bytes of `s` to `out`.
fn push_all(out: &mut Vec<u8>, s: &[u8])
    ensures
        final(out)@ == old(out)@ + s@,
{
    let mut i: usize = 0;
    while i < s.len()
        invariant
            i <= s@.len(),
            out@ == old(out)@ + s@.subrange(0, i as int),
        decreases s@.len() - i,
    {
        out.push(s[i]);
        i += 1;
        assert(out@ =~= old(out)@ + s@.subrange(0, i as int));
    }
    assert(s@.subrange(0, s@.len() as int) =~= s@);
}

/// The prompt's bytes.
pub fn shell_prompt_bytes() -> (out: Vec<u8>)
    ensures
        out@ == shell_prompt(),
{
    let out = vec![83u8, 104u8, 101u8, 108u8, 108u8, 62u8, 32u8];
    assert(out@ =~= shell_prompt());
    out
}

impl Shell {
    /// The line holds fewer bytes than the buffer.
    pub closed spec fn wf(&self) -> bool {
        self.line_len < LINE_BUF_SIZE
    }

    /// A shell with an empty line.
    pub fn new() -> (s: Self)
        ensures
            s.wf(),
            s@ == Seq::<u8>::empty(),
    {
        let s = Shell { line_buf: [0u8; 128], line_len: 0 };
        assert(s@ =~= Seq::<u8>::empty());
        s
    }

    /// Handle one key; returns what to print. Enter (newline or carriage
    /// return) prints a newline, then `"Echo: "`, the line and a newline
    /// when the line is not empty, then the prompt, and empties the line.
    /// Backspace removes the line's last byte and prints 0x08, or does
    /// nothing on an empty line. Any other key is appended while the line
    /// has fewer than 127 bytes, and printed either way.
    pub fn on_key(&mut self, ch: u8) -> (out: Vec<u8>)
        requires
            old(self).wf(),
        ensures
            final(self).wf(),
            (ch == 10 || ch == 13) ==> {
                &&& final(self)@ == Seq::<u8>::empty()
                &&& out@ == seq![10u8] + (if old(self)@.len() > 0 { echo_prefix() + old(self)@ + seq![10u8] } else { Seq::empty() })
                        + shell_prompt()
            },
            ch == 8 ==> {
                &&& final(self)@ == if old(self)@.len() > 0 { old(self)@.drop_last() } else { old(self)@ }
                &&& out@ == if old(self)@.len() > 0 { seq![8u8] } else { Seq::<u8>::empty() }
            },
            ch != 10 && ch != 13 && ch != 8 ==> {
                &&& final(self)@ == if old(self)@.len() < LINE_BUF_SIZE - 1 { old(self)@.push(ch) } else { old(self)@ }
                &&& out@ == seq![ch]
            },
    {
        let ghost before = self@;
        let mut out: Vec<u8> = Vec::new();
        if ch == 10 || ch == 13 {
            out.push(10);
            if self.line_len > 0 {
                let prefix: [u8; 6] = [69, 99, 104, 111, 58, 32];
                push_all(&mut out, &prefix);
                let mut i: usize = 0;
                while i < self.line_len
                    invariant
                        self.wf(),
                        self@ == before,
                        i <= self.line_len,
                        out@ == seq![10u8] + echo_prefix() + before.subrange(0, i as int),
                    decreases self.line_len - i,
                {
                    out.push(self.line_buf[i]);
                    i += 1;
                    assert(out@ =~= seq![10u8] + echo_prefix() + before.subrange(0, i as int));
                }
                out.push(10);
                assert(before.subrange(0, before.len() as int) =~= before);
            }
            self.line_len = 0;
            let prompt = shell_prompt_bytes();
            push_all(&mut out, prompt.as_slice());
            assert(self@ =~= Seq::<u8>::empty());
            assert(out@ =~= seq![10u8] + (if before.len() > 0 { echo_prefix() + before + seq![10u8] } else { Seq::empty() })
                + shell_prompt());
        } else if ch == 8 {
            if self.line_len > 0 {
                self.line_len = self.line_len - 1;
                out.push(8);
                assert(self@ =~= before.drop_last());
            }
            assert(out@ =~= if before.len() > 0 { seq![8u8] } else { Seq::<u8>::empty() });
        } else {
            if self.line_len < LINE_BUF_SIZE - 1 {
                self.line_buf[self.line_len] = ch;
                self.line_len = self.line_len + 1;
                assert(self@ =~= before.push(ch));
            }
            out.push(ch);
            assert(out@ =~= seq![ch]);
        }
        out
    }
}

/// The request that the shell sends the keyboard server for a key.
pub fn key_request() -> (m: IpcMessage)
    ensures
        m.src_pid == 0,
        m.msg_type == MSG_KEY_REQUEST,
        m.data@ == Seq::new(60, |i: int| 0u8),
{
    let m = IpcMessage::new(0, MSG_KEY_REQUEST, [0u8; 60]);
    assert(m.data@ =~= Seq::new(60, |i: int| 0u8));
    m
}

/// The key in the keyboard server's reply, given what receiving it
/// returned: a key only when a message was received, it is a key event,
/// and it says that a key was available.
pub fn key_from_reply(ret: isize, reply: &IpcMessage) -> (r: Option<u8>)
    ensures
        r == if ret > 0 && reply.msg_type == MSG_KEY_EVENT && reply.data@[1] == 1 {
            Some(reply.data@[0])
        } else {
            None
        },
{
    if ret > 0 && reply.msg_type == MSG_KEY_EVENT && reply.data[1] == 1 {
        Some(reply.data[0])
    } else {
        None
    }
}

} // verus!
