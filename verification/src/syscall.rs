//! System calls: the handler table and the handlers, the register frame
//! of the timer interrupt and the context switch made through it, and the
//! interrupt descriptor table entries.

use vstd::prelude::*;
use crate::process::{Pid, Process, ProcessRegisters, ProcessState, ProcessTable, IpcMessage, schedule_next, scheduled,
    slot_of, lemma_slot_of, get_current_pid, with_state, holds_pid, first_with_pid, ipc_send_result, ipc_sent};
use crate::interrupt_server::ipc_indices_ok;
use vstd::bytes::{spec_u16_from_le_bytes, spec_u16_to_le_bytes, u16_from_le_bytes};
use vstd::slice::slice_subrange;
use crate::vga::{VgaWriter, screen_after};
use crate::paging::PhysicalMemory;
use crate::signal::{deliver_pending, signal_delivered, lowest_pending, after_signal, handler_memory};
use crate::tss::{TaskStateSegment, splice, RSP0_OFFSET};
use vstd::bytes::spec_u64_to_le_bytes;

pub mod syscall_nr;

verus! {

/// Interrupt vector of the legacy software-interrupt system call.
pub const SYSCALL_VECTOR: u8 = 0x80;

/// Number of system call slots.
pub const SYSCALL_SLOTS: usize = 16;

/// The built-in system call handlers.
#[derive(Clone, Copy, PartialEq, Eq, Structural, Debug)]
pub enum SyscallHandler {
    Write,
    Exit,
    VgaWrite,
    VgaClear,
    Schedule,
    GetPid,
    IpcSend,
}

/// Table mapping system call numbers to handlers.
pub struct SyscallTable {
    handlers: [Option<SyscallHandler>; 16],
}

/// The handlers of the kernel's table, under their numbers.
pub open spec fn kernel_handlers() -> Seq<Option<SyscallHandler>> {
    Seq::new(16, |i: int| None::<SyscallHandler>)
        .update(syscall_nr::WRITE as int, Some(SyscallHandler::Write))
        .update(syscall_nr::EXIT as int, Some(SyscallHandler::Exit))
        .update(syscall_nr::IPC_SEND as int, Some(SyscallHandler::IpcSend))
        .update(syscall_nr::VGA_WRITE as int, Some(SyscallHandler::VgaWrite))
        .update(syscall_nr::VGA_CLEAR as int, Some(SyscallHandler::VgaClear))
        .update(syscall_nr::SCHEDULE as int, Some(SyscallHandler::Schedule))
        .update(syscall_nr::GETPID as int, Some(SyscallHandler::GetPid))
}

impl SyscallTable {
    /// The handler of each system call number.
    pub closed spec fn view(&self) -> Seq<Option<SyscallHandler>> {
        self.handlers@
    }

    /// A table has `SYSCALL_SLOTS` handler slots.
    pub proof fn lemma_len(&self)
        ensures
            self@.len() == SYSCALL_SLOTS,
    {
    }

    /// A table with no handler.
    pub fn new() -> (t: Self)
        ensures
            t@ == Seq::new(16, |i: int| None::<SyscallHandler>),
    {
        let t = SyscallTable { handlers: [None; 16] };
        assert(t@ =~= Seq::new(16, |i: int| None::<SyscallHandler>));
        t
    }

    /// Install `handler` for number `nr`; numbers from 16 on are ignored.
    pub fn register(&mut self, nr: usize, handler: SyscallHandler)
        ensures
            nr < SYSCALL_SLOTS ==> final(self)@ == old(self)@.update(nr as int, Some(handler)),
            nr >= SYSCALL_SLOTS ==> final(self)@ == old(self)@,
    {
        if nr < SYSCALL_SLOTS {
            self.handlers[nr] = Some(handler);
        }
    }

    /// The kernel's table: write, exit, IPC send, VGA write, VGA clear,
    /// schedule and getpid under their numbers.
    pub fn kernel_table() -> (t: Self)
        ensures
            t@ == kernel_handlers(),
    {
        let mut table = SyscallTable::new();
        table.register(syscall_nr::WRITE, SyscallHandler::Write);
        table.register(syscall_nr::EXIT, SyscallHandler::Exit);
        table.register(syscall_nr::IPC_SEND, SyscallHandler::IpcSend);
        table.register(syscall_nr::VGA_WRITE, SyscallHandler::VgaWrite);
        table.register(syscall_nr::VGA_CLEAR, SyscallHandler::VgaClear);
        table.register(syscall_nr::SCHEDULE, SyscallHandler::Schedule);
        table.register(syscall_nr::GETPID, SyscallHandler::GetPid);
        table
    }

    /// Run the handler of system call `nr` with arguments `a1`..`a5`
    /// (`user_bytes` are the `a3` bytes of the user buffer at `a2`, read
    /// by the caller for WRITE). Returns the handler's result, -1 when no
    /// handler is installed, and `None` for EXIT, after which the calling
    /// process never resumes.
    pub fn handle(
        &self,
        processes: &mut ProcessTable,
        vga: &mut VgaWriter,
        user_bytes: &[u8],
        nr: usize,
        a1: usize,
        a2: usize,
        a3: usize,
        a4: usize,
        a5: usize,
    ) -> (r: Option<isize>)
        requires
            nr < SYSCALL_SLOTS,
            old(processes).wf(),
            old(vga).wf(),
            self@[nr as int] == Some(SyscallHandler::Write) && write_allowed(a1, a2) ==> user_bytes@.len() == a3,
        ensures
            final(processes).wf(),
            final(vga).wf(),
            match self@[nr as int] {
                None => r == Some(-1isize) && *final(processes) == *old(processes) && *final(vga) == *old(vga),
                Some(h) => r == handler_result(h, *old(processes), a1, a2, a3, user_bytes@)
                    && handler_effect(h, *old(processes), *final(processes), *old(vga), *final(vga), a1, a2, user_bytes@),
            },
    {
        match self.handlers[nr] {
            None => Some(-1),
            Some(SyscallHandler::Write) => Some(sys_write(vga, a1, a2, a3, user_bytes)),
            Some(SyscallHandler::Exit) => {
                sys_exit(processes);
                None
            },
            Some(SyscallHandler::IpcSend) => Some(sys_ipc_send(processes, a1, user_bytes)),
            Some(SyscallHandler::VgaWrite) => Some(sys_vga_write(vga, a1)),
            Some(SyscallHandler::VgaClear) => Some(sys_vga_clear(vga)),
            Some(SyscallHandler::Schedule) => Some(sys_schedule(processes)),
            Some(SyscallHandler::GetPid) => Some(sys_getpid(processes)),
        }
    }
}

/// Dispatch system call `nr` through `table`: -1 for a number without a
/// handler (including every number from 16 on), otherwise as `handle`.
pub fn syscall_dispatch(
    table: &SyscallTable,
    processes: &mut ProcessTable,
    vga: &mut VgaWriter,
    user_bytes: &[u8],
    nr: usize,
    a1: usize,
    a2: usize,
    a3: usize,
    a4: usize,
    a5: usize,
) -> (r: Option<isize>)
    requires
        old(processes).wf(),
        old(vga).wf(),
        nr < SYSCALL_SLOTS && table@[nr as int] == Some(SyscallHandler::Write) && write_allowed(a1, a2) ==> user_bytes@.len() == a3,
    ensures
        final(processes).wf(),
        final(vga).wf(),
        nr >= SYSCALL_SLOTS ==> r == Some(-1isize) && *final(processes) == *old(processes) && *final(vga) == *old(vga),
        nr < SYSCALL_SLOTS ==> match table@[nr as int] {
            None => r == Some(-1isize) && *final(processes) == *old(processes) && *final(vga) == *old(vga),
            Some(h) => r == handler_result(h, *old(processes), a1, a2, a3, user_bytes@)
                && handler_effect(h, *old(processes), *final(processes), *old(vga), *final(vga), a1, a2, user_bytes@),
        },
{
    if nr < SYSCALL_SLOTS {
        table.handle(processes, vga, user_bytes, nr, a1, a2, a3, a4, a5)
    } else {
        Some(-1)
    }
}

/// WRITE accepts stdout and stderr and user buffers in
/// `[0x400000, 0x800000000)`.
pub open spec fn write_allowed(fd: usize, buf: usize) -> bool {
    (fd == 1 || fd == 2) && 0x400000 <= buf && buf < 0x8_0000_0000
}

/// WRITE to stderr (fd 2) is WRITE to stdout (fd 1): for a user buffer
/// in `[0x400000, 0x8_0000_0000)` both return the count and print the
/// bytes; any other descriptor, or a buffer outside that range, returns -1
/// and prints nothing.
pub proof fn law_write_descriptors(p0: ProcessTable, p1: ProcessTable, v0: VgaWriter, v1: VgaWriter,
    fd: usize, buf: usize, count: usize, bytes: Seq<u8>)
    ensures
        handler_result(SyscallHandler::Write, p0, 2, buf, count, bytes)
            == handler_result(SyscallHandler::Write, p0, 1, buf, count, bytes),
        handler_effect(SyscallHandler::Write, p0, p1, v0, v1, 2, buf, bytes)
            == handler_effect(SyscallHandler::Write, p0, p1, v0, v1, 1, buf, bytes),
        (fd == 1 || fd == 2) && 0x400000 <= buf && buf < 0x8_0000_0000 ==> {
            &&& handler_result(SyscallHandler::Write, p0, fd, buf, count, bytes) == Some(count as isize)
            &&& handler_effect(SyscallHandler::Write, p0, p1, v0, v1, fd, buf, bytes)
                == (p1 == p0 && (v1.cells(), v1.cursor()) == screen_after(v0.cells(), v0.cursor(), bytes))
        },
        !((fd == 1 || fd == 2) && 0x400000 <= buf && buf < 0x8_0000_0000) ==> {
            &&& handler_result(SyscallHandler::Write, p0, fd, buf, count, bytes) == Some(-1isize)
            &&& handler_effect(SyscallHandler::Write, p0, p1, v0, v1, fd, buf, bytes) == (p1 == p0 && v1 == v0)
        },
{
}

/// The kernel's system calls by number: 0 EXIT, 1 WRITE, 3 IPC_SEND,
/// 6 GETPID, 7 VGA_WRITE, 8 VGA_CLEAR and 9 SCHEDULE; no handler for any
/// other of the 16 numbers.
pub proof fn law_kernel_table_numbers(i: int)
    requires
        0 <= i < 16,
    ensures
        kernel_handlers().len() == 16,
        kernel_handlers()[i] == if i == 0 {
            Some(SyscallHandler::Exit)
        } else if i == 1 {
            Some(SyscallHandler::Write)
        } else if i == 3 {
            Some(SyscallHandler::IpcSend)
        } else if i == 6 {
            Some(SyscallHandler::GetPid)
        } else if i == 7 {
            Some(SyscallHandler::VgaWrite)
        } else if i == 8 {
            Some(SyscallHandler::VgaClear)
        } else if i == 9 {
            Some(SyscallHandler::Schedule)
        } else {
            None
        },
{
}

/// IPC_SEND takes the message type from bytes 2 and 3 of the user message
/// (its little-endian bytes are those two) and the payload from bytes 4 to 63, and delivers them
/// from the calling process to the process named by its first argument.
pub proof fn law_ipc_send_message(p0: ProcessTable, p1: ProcessTable, v0: VgaWriter, v1: VgaWriter,
    a1: usize, a2: usize, bytes: Seq<u8>)
    requires
        bytes.len() == 64,
    ensures
        spec_u16_to_le_bytes(msg_type_of(bytes)) == seq![bytes[2], bytes[3]],
        ipc_send_args_ok(p0, a1, bytes) && handler_effect(SyscallHandler::IpcSend, p0, p1, v0, v1, a1, a2, bytes) ==>
            ipc_sent(p0.slots(), p1.slots(), p0.current(), a1 as u16, msg_type_of(bytes),
                Seq::new(60, |k: int| bytes[k + 4])),
{
    vstd::bytes::lemma_auto_spec_u16_to_from_le_bytes();
    let s = bytes.subrange(2, 4);
    assert(s =~= seq![bytes[2], bytes[3]]);
    assert(bytes.subrange(4, 64) =~= Seq::new(60, |k: int| bytes[k + 4]));
}

/// What the simple system calls give and do: EXIT never returns to the
/// caller; GETPID returns the current PID and changes nothing; VGA_WRITE
/// prints its argument's low byte just as a WRITE of that one byte to
/// stdout from a user buffer does, and returns 0; VGA_CLEAR leaves every
/// character a space (32) with attribute 7 and the cursor at the top
/// left, and returns 0.
pub proof fn law_simple_syscalls(p0: ProcessTable, p1: ProcessTable, v0: VgaWriter, v1: VgaWriter,
    a1: usize, a2: usize, a3: usize, bytes: Seq<u8>, i: int)
    requires
        0 <= i < 4000,
    ensures
        handler_result(SyscallHandler::Exit, p0, a1, a2, a3, bytes) is None,
        handler_result(SyscallHandler::GetPid, p0, a1, a2, a3, bytes) == Some(p0.current() as isize),
        handler_effect(SyscallHandler::GetPid, p0, p1, v0, v1, a1, a2, bytes) == (p1 == p0 && v1 == v0),
        handler_result(SyscallHandler::VgaWrite, p0, a1, a2, a3, bytes) == Some(0isize),
        handler_effect(SyscallHandler::VgaWrite, p0, p1, v0, v1, a1, a2, bytes)
            == handler_effect(SyscallHandler::Write, p0, p1, v0, v1, 1, 0x400000, seq![a1 as u8]),
        handler_result(SyscallHandler::VgaClear, p0, a1, a2, a3, bytes) == Some(0isize),
        handler_effect(SyscallHandler::VgaClear, p0, p1, v0, v1, a1, a2, bytes) ==> {
            &&& p1 == p0
            &&& v1.cursor() == 0
            &&& v1.cells().len() == 4000
            &&& v1.cells()[i] == if i % 2 == 0 { 32u8 } else { 7u8 }
        },
{
}

/// IPC_SEND takes its arguments: the 64 bytes of the message (read by the
/// caller from the user buffer), a destination PID, and a table whose IPC
/// queues are in order.
pub open spec fn ipc_send_args_ok(p: ProcessTable, a1: usize, user_bytes: Seq<u8>) -> bool {
    &&& user_bytes.len() == 64
    &&& a1 <= 0xFFFF
    &&& ipc_indices_ok(p.slots())
}

/// The message type in the bytes of an IPC message (bytes 2 and 3).
pub open spec fn msg_type_of(user_bytes: Seq<u8>) -> u16 {
    spec_u16_from_le_bytes(user_bytes.subrange(2, 4))
}

/// What each handler returns.
pub open spec fn handler_result(h: SyscallHandler, p0: ProcessTable, a1: usize, a2: usize, a3: usize, user_bytes: Seq<u8>) -> Option<isize> {
    match h {
        SyscallHandler::Write => Some(if write_allowed(a1, a2) { a3 as isize } else { -1isize }),
        SyscallHandler::Exit => None,
        SyscallHandler::VgaWrite => Some(0isize),
        SyscallHandler::VgaClear => Some(0isize),
        SyscallHandler::Schedule => Some(0isize),
        SyscallHandler::GetPid => Some(p0.current() as isize),
        SyscallHandler::IpcSend => Some(
            if ipc_send_args_ok(p0, a1, user_bytes) && ipc_send_result(p0.slots(), p0.current(), a1 as u16) is Ok {
                0isize
            } else {
                -1isize
            }),
    }
}

/// What each handler does to the process table and the screen.
pub open spec fn handler_effect(
    h: SyscallHandler,
    p0: ProcessTable, p1: ProcessTable,
    v0: VgaWriter, v1: VgaWriter,
    a1: usize, a2: usize, user_bytes: Seq<u8>,
) -> bool {
    match h {
        SyscallHandler::Write => p1 == p0 && if write_allowed(a1, a2) {
            (v1.cells(), v1.cursor()) == screen_after(v0.cells(), v0.cursor(), user_bytes)
        } else {
            v1 == v0
        },
        SyscallHandler::Exit => v1 == v0 && p1.wf()
            && (p1.slots(), p1.current())
                == scheduled(with_state(p0.slots(), p0.current(), ProcessState::Terminated), p0.current())
            && p1.next_pid_spec() == p0.next_pid_spec(),
        SyscallHandler::IpcSend => v1 == v0 && p1.wf()
            && p1.current() == p0.current() && p1.next_pid_spec() == p0.next_pid_spec()
            && if ipc_send_args_ok(p0, a1, user_bytes) {
                ipc_sent(p0.slots(), p1.slots(), p0.current(), a1 as u16, msg_type_of(user_bytes), user_bytes.subrange(4, 64))
            } else {
                p1 == p0
            },
        SyscallHandler::VgaWrite => p1 == p0
            && (v1.cells(), v1.cursor()) == screen_after(v0.cells(), v0.cursor(), seq![a1 as u8]),
        SyscallHandler::VgaClear => p1 == p0 && v1.cells() == crate::vga::blank_cells() && v1.cursor() == 0,
        SyscallHandler::Schedule => v1 == v0 && p1.wf()
            && (p1.slots(), p1.current()) == scheduled(p0.slots(), p0.current())
            && p1.next_pid_spec() == p0.next_pid_spec(),
        SyscallHandler::GetPid => p1 == p0 && v1 == v0,
    }
}

/// WRITE: print the user buffer `data` (the `count` bytes at `buf`) when
/// `fd` is stdout or stderr and `buf` is a user address; returns `count`,
/// or -1 (printing nothing) otherwise.
pub fn sys_write(vga: &mut VgaWriter, fd: usize, buf: usize, count: usize, data: &[u8]) -> (r: isize)
    requires
        old(vga).wf(),
        write_allowed(fd, buf) ==> data@.len() == count,
    ensures
        final(vga).wf(),
        r == if write_allowed(fd, buf) { count as isize } else { -1isize },
        write_allowed(fd, buf) ==> (final(vga).cells(), final(vga).cursor()) == screen_after(old(vga).cells(), old(vga).cursor(), data@),
        !write_allowed(fd, buf) ==> *final(vga) == *old(vga),
{
    if (fd == 1 || fd == 2) && buf >= 0x400000 && (buf as u64) < 0x8_0000_0000u64 {
        let mut i: usize = 0;
        while i < count
            invariant
                vga.wf(),
                data@.len() == count,
                i <= count,
                (vga.cells(), vga.cursor()) == screen_after(old(vga).cells(), old(vga).cursor(), data@.take(i as int)),
            decreases count - i,
        {
            proof { assert(data@.take(i + 1).drop_last() =~= data@.take(i as int)); }
            vga.write_byte(data[i]);
            i += 1;
        }
        assert(data@.take(count as int) =~= data@);
        count as isize
    } else {
        -1
    }
}

/// Server kind of `GET_SERVER_PID` naming the VGA server.
pub const SERVER_VGA: usize = 1;
/// Server kind of `GET_SERVER_PID` naming the keyboard server.
pub const SERVER_KEYBOARD: usize = 2;

/// GET_SERVER_PID: the PID of the well-known server of kind `kind`, given
/// the PIDs of the VGA and keyboard servers; -1 for an unknown kind.
pub fn sys_get_server_pid(kind: usize, vga_pid: Pid, kbd_pid: Pid) -> (r: isize)
    ensures
        r == if kind == SERVER_VGA { vga_pid as int } else if kind == SERVER_KEYBOARD { kbd_pid as int } else { -1int },
{
    if kind == SERVER_VGA {
        vga_pid as isize
    } else if kind == SERVER_KEYBOARD {
        kbd_pid as isize
    } else {
        -1
    }
}

/// EXIT: the calling (current) process terminates and the CPU passes to
/// the next ready process (see `scheduled`).
pub fn sys_exit(processes: &mut ProcessTable)
    requires
        old(processes).wf(),
    ensures
        final(processes).wf(),
        (final(processes).slots(), final(processes).current())
            == scheduled(with_state(old(processes).slots(), old(processes).current(), ProcessState::Terminated), old(processes).current()),
        final(processes).next_pid_spec() == old(processes).next_pid_spec(),
{
    let current = get_current_pid(processes);
    processes.set_terminated(current);
    schedule_next(processes);
}

/// IPC_SEND: deliver the message in `user_bytes` (the 64 bytes of an
/// `IpcMessage` at the user pointer, read by the caller) from the current
/// process to process `dst`, through the capability check of
/// `ProcessTable::ipc_send`; the kernel stamps the sender's PID. Returns 0
/// when the message was delivered and -1 otherwise, also when the bytes are
/// not a whole message, `dst` is not a PID or an IPC queue is out of order.
pub fn sys_ipc_send(processes: &mut ProcessTable, dst: usize, user_bytes: &[u8]) -> (r: isize)
    requires
        old(processes).wf(),
    ensures
        final(processes).wf(),
        final(processes).current() == old(processes).current(),
        final(processes).next_pid_spec() == old(processes).next_pid_spec(),
        Some(r) == handler_result(SyscallHandler::IpcSend, *old(processes), dst, 0, 0, user_bytes@),
        ipc_send_args_ok(*old(processes), dst, user_bytes@) ==> ipc_sent(old(processes).slots(), final(processes).slots(),
            old(processes).current(), dst as u16, msg_type_of(user_bytes@), user_bytes@.subrange(4, 64)),
        !ipc_send_args_ok(*old(processes), dst, user_bytes@) ==> *final(processes) == *old(processes),
{
    if user_bytes.len() != 64 || dst > 0xFFFF || !processes.ipc_indices_valid() {
        return -1;
    }
    let msg_type = u16_from_le_bytes(slice_subrange(user_bytes, 2, 4));
    let mut data = [0u8; 60];
    let mut k: usize = 0;
    while k < 60
        invariant
            user_bytes@.len() == 64,
            k <= 60,
            data@.len() == 60,
            forall|j: int| 0 <= j < k ==> #[trigger] data@[j] == user_bytes@[j + 4],
        decreases 60 - k,
    {
        data[k] = user_bytes[k + 4];
        k += 1;
    }
    assert(data@ =~= user_bytes@.subrange(4, 64));
    let current = get_current_pid(processes);
    let msg = IpcMessage::new(current, msg_type, data);
    match processes.ipc_send(current, dst as u16, msg) {
        Ok(()) => 0,
        Err(_) => -1,
    }
}

/// VGA_WRITE: print the low byte of `byte`; returns 0.
pub fn sys_vga_write(vga: &mut VgaWriter, byte: usize) -> (r: isize)
    requires
        old(vga).wf(),
    ensures
        final(vga).wf(),
        r == 0,
        (final(vga).cells(), final(vga).cursor()) == screen_after(old(vga).cells(), old(vga).cursor(), seq![byte as u8]),
{
    vga.write_byte(byte as u8);
    proof {
        assert(seq![byte as u8].drop_last() =~= Seq::<u8>::empty());
        reveal_with_fuel(screen_after, 2);
    }
    0
}

/// VGA_CLEAR: clear the screen; returns 0.
pub fn sys_vga_clear(vga: &mut VgaWriter) -> (r: isize)
    requires
        old(vga).wf(),
    ensures
        final(vga).wf(),
        r == 0,
        final(vga).cells() == crate::vga::blank_cells(),
        final(vga).cursor() == 0,
{
    vga.clear_screen();
    0
}

/// SCHEDULE: yield to the next process (round-robin); returns 0.
pub fn sys_schedule(processes: &mut ProcessTable) -> (r: isize)
    requires
        old(processes).wf(),
    ensures
        final(processes).wf(),
        r == 0,
        (final(processes).slots(), final(processes).current()) == scheduled(old(processes).slots(), old(processes).current()),
        final(processes).next_pid_spec() == old(processes).next_pid_spec(),
{
    schedule_next(processes);
    0
}

/// GETPID: the PID of the calling (current) process.
pub fn sys_getpid(processes: &ProcessTable) -> (r: isize)
    ensures
        r == processes.current() as isize,
{
    get_current_pid(processes) as isize
}

} // verus!

verus! {

/// Number of 64-bit slots of the timer interrupt's register frame: the 15
/// general registers pushed by the entry stub (r15 first) followed by the
/// CPU's interrupt frame (RIP, CS, RFLAGS, RSP, SS).
pub const TIMER_FRAME_SLOTS: usize = 20;

/// The registers held by a timer frame.
pub open spec fn regs_from_frame(f: Seq<u64>) -> ProcessRegisters {
    ProcessRegisters {
        rax: f[14], rbx: f[11], rcx: f[13], rdx: f[12], rsi: f[9], rdi: f[8], rbp: f[10], rsp: f[18],
        r8: f[7], r9: f[6], r10: f[5], r11: f[4], r12: f[3], r13: f[2], r14: f[1], r15: f[0],
        rip: f[15], rflags: f[17],
    }
}

/// A timer frame loaded with registers `r`; the CS and SS slots keep their values.
pub open spec fn frame_with_regs(f: Seq<u64>, r: ProcessRegisters) -> Seq<u64> {
    f.update(14, r.rax).update(11, r.rbx).update(13, r.rcx).update(12, r.rdx)
        .update(9, r.rsi).update(8, r.rdi).update(10, r.rbp).update(18, r.rsp)
        .update(7, r.r8).update(6, r.r9).update(5, r.r10).update(4, r.r11)
        .update(3, r.r12).update(2, r.r13).update(1, r.r14).update(0, r.r15)
        .update(15, r.rip).update(17, r.rflags)
}

/// The timer frame's layout, slot by slot: r15 down to r8 in slots 0 to
/// 7, then rdi, rsi, rbp, rbx, rdx, rcx, rax in slots 8 to 14, and the
/// CPU's interrupt frame: RIP 15, CS 16, RFLAGS 17, user RSP 18, SS 19.
/// Loading registers writes exactly those register slots and keeps CS and
/// SS.
pub proof fn law_timer_frame_layout(f: Seq<u64>, r: ProcessRegisters)
    requires
        f.len() == 20,
    ensures
        regs_from_frame(f) == (ProcessRegisters {
            r15: f[0], r14: f[1], r13: f[2], r12: f[3], r11: f[4], r10: f[5], r9: f[6], r8: f[7],
            rdi: f[8], rsi: f[9], rbp: f[10], rbx: f[11], rdx: f[12], rcx: f[13], rax: f[14],
            rip: f[15], rflags: f[17], rsp: f[18],
        }),
        frame_with_regs(f, r).len() == 20,
        frame_with_regs(f, r)[16] == f[16],
        frame_with_regs(f, r)[19] == f[19],
        frame_with_regs(f, r)[14] == r.rax && frame_with_regs(f, r)[15] == r.rip
            && frame_with_regs(f, r)[17] == r.rflags && frame_with_regs(f, r)[18] == r.rsp
            && frame_with_regs(f, r)[0] == r.r15 && frame_with_regs(f, r)[8] == r.rdi,
{
}

/// Loading a frame with the registers it holds leaves it as it was.
pub proof fn law_frame_round_trip(f: Seq<u64>)
    requires
        f.len() == TIMER_FRAME_SLOTS,
    ensures
        frame_with_regs(f, regs_from_frame(f)) == f,
{
    assert(frame_with_regs(f, regs_from_frame(f)) =~= f);
}

/// Saving registers into a frame and reading them back gives them again.
pub proof fn law_regs_round_trip(f: Seq<u64>, r: ProcessRegisters)
    requires
        f.len() == TIMER_FRAME_SLOTS,
    ensures
        regs_from_frame(frame_with_regs(f, r)) == r,
{
}

/// The table after the interrupted process `cur` saved the frame's
/// registers and, if it was running, became ready.
pub open spec fn saved_current(s: Seq<Option<Process>>, cur: Pid, f: Seq<u64>) -> Seq<Option<Process>> {
    if cur != 0 && slot_of(s, cur) is Some {
        let i = slot_of(s, cur)->0;
        let p = s[i]->0;
        s.update(i, Some(Process {
            registers: regs_from_frame(f),
            state: if p.state == ProcessState::Running { ProcessState::Ready } else { p.state },
            ..p
        }))
    } else {
        s
    }
}

/// Context switch on a timer interrupt: save the interrupted process's
/// registers from `frame` (and make it ready if it was running), schedule
/// round-robin, then load the registers of the process now current into
/// `frame` and mark it running. (The interrupt is acknowledged by the
/// caller.)
pub fn timer_save_and_switch(
    table: &mut ProcessTable,
    mem: &mut PhysicalMemory,
    tss: &mut TaskStateSegment,
    frame: &mut [u64; 20],
)
    requires
        old(table).wf(),
        old(mem).wf(),
    ensures
        final(table).wf(),
        final(mem).wf(),
        final(table).next_pid_spec() == old(table).next_pid_spec(),
        ({
            let s1 = saved_current(old(table).slots(), old(table).current(), old(frame)@);
            let (s2, next) = scheduled(s1, old(table).current());
            &&& final(table).current() == next
            &&& if next != 0 && slot_of(s2, next) is Some {
                    let j = slot_of(s2, next)->0;
                    let q = final(table).slots()[j]->0;
                    &&& final(table).slots() == s2.update(j, final(table).slots()[j])
                    &&& final(table).slots()[j] is Some
                    &&& signal_delivered(s2[j]->0, q, *old(mem), *final(mem))
                    &&& final(frame)@ == frame_with_regs(old(frame)@, q.registers)
                    &&& final(tss)@ == splice(old(tss)@, RSP0_OFFSET as int, spec_u64_to_le_bytes(q.kernel_stack_top))
                } else {
                    &&& final(frame)@ == old(frame)@
                    &&& final(table).slots() == s2
                    &&& *final(mem) == *old(mem)
                    &&& *final(tss) == *old(tss)
                }
        }),
{
    let current = get_current_pid(table);
    proof { lemma_slot_of(table.slots(), current); }
    if current != 0 {
        if let Some(p) = table.get_mut(current) {
            p.registers.rax = frame[14];
            p.registers.rbx = frame[11];
            p.registers.rcx = frame[13];
            p.registers.rdx = frame[12];
            p.registers.rsi = frame[9];
            p.registers.rdi = frame[8];
            p.registers.rbp = frame[10];
            p.registers.rsp = frame[18];
            p.registers.r8 = frame[7];
            p.registers.r9 = frame[6];
            p.registers.r10 = frame[5];
            p.registers.r11 = frame[4];
            p.registers.r12 = frame[3];
            p.registers.r13 = frame[2];
            p.registers.r14 = frame[1];
            p.registers.r15 = frame[0];
            p.registers.rip = frame[15];
            p.registers.rflags = frame[17];
            if p.state == ProcessState::Running {
                p.state = ProcessState::Ready;
            }
        }
    }
    assert(table.slots() == saved_current(old(table).slots(), current, old(frame)@));
    schedule_next(table);
    let ghost s2 = table.slots();
    let next = get_current_pid(table);
    proof { lemma_slot_of(table.slots(), next); }
    if next != 0 {
        deliver_pending(table, mem, next);
        let ghost s3 = table.slots();
        proof {
            lemma_slot_of(s3, next);
            match slot_of(s2, next) {
                Some(j) => {
                    assert(first_with_pid(s2, next, j));
                    let p0 = s2[j]->0;
                    if p0.signal_pending != 0 {
                        let sig = choose|sig: int| #[trigger] lowest_pending(p0.signal_pending, sig)
                            && s3[j]->0 == after_signal(p0, sig) && handler_memory(p0, sig, *old(mem), *mem);
                        assert(s3[j]->0.pid == p0.pid);
                        assert(s3 == s2.update(j, s3[j]));
                    }
                    assert(s3[j] is Some && s3[j]->0.pid == next);
                    assert forall|k: int| 0 <= k < j implies !#[trigger] holds_pid(s3, k, next) by {
                        assert(s3[k] == s2[k]);
                        assert(!holds_pid(s2, k, next));
                    }
                    assert(first_with_pid(s3, next, j));
                },
                None => {
                    assert forall|i: int| !#[trigger] holds_pid(s3, i, next) by {
                        assert(!holds_pid(s2, i, next));
                    }
                },
            }
        }
        if let Some(p) = table.get_mut(next) {
            tss.set_rsp0(p.kernel_stack_top);
            frame[14] = p.registers.rax;
            frame[11] = p.registers.rbx;
            frame[13] = p.registers.rcx;
            frame[12] = p.registers.rdx;
            frame[9] = p.registers.rsi;
            frame[8] = p.registers.rdi;
            frame[10] = p.registers.rbp;
            frame[18] = p.registers.rsp;
            frame[7] = p.registers.r8;
            frame[6] = p.registers.r9;
            frame[5] = p.registers.r10;
            frame[4] = p.registers.r11;
            frame[3] = p.registers.r12;
            frame[2] = p.registers.r13;
            frame[1] = p.registers.r14;
            frame[0] = p.registers.r15;
            frame[15] = p.registers.rip;
            frame[17] = p.registers.rflags;
        }
    }
    proof {
        if next != 0 && slot_of(s2, next) is Some {
            let j = slot_of(s2, next)->0;
            assert(frame@ =~= frame_with_regs(old(frame)@, table.slots()[j]->0.registers));
        }
    }
}

/// An interrupt-gate descriptor of the IDT.
#[derive(Copy, Clone)]
pub struct IdtEntry {
    pub offset_low: u16,
    pub selector: u16,
    pub ist: u8,
    pub type_attr: u8,
    pub offset_mid: u16,
    pub offset_high: u32,
    pub reserved: u32,
}

/// Present, DPL 0, 64-bit interrupt gate (clears IF on entry).
pub const INTERRUPT_GATE: u8 = 0x8E;

impl IdtEntry {
    /// An interrupt gate to `handler_addr` through code segment `selector`:
    /// the address is split into its low 16, middle 16 and high 32 bits.
    pub fn new(handler_addr: u64, selector: u16) -> (e: Self)
        ensures
            e.offset_low == handler_addr as u16,
            e.offset_mid == (handler_addr >> 16u64) as u16,
            e.offset_high == (handler_addr >> 32u64) as u32,
            e.selector == selector,
            e.ist == 0,
            e.type_attr == INTERRUPT_GATE,
            e.reserved == 0,
    {
        IdtEntry {
            offset_low: handler_addr as u16,
            selector,
            ist: 0,
            type_attr: INTERRUPT_GATE,
            offset_mid: (handler_addr >> 16) as u16,
            offset_high: (handler_addr >> 32) as u32,
            reserved: 0,
        }
    }

    /// The empty (not present) descriptor.
    pub fn null() -> (e: Self)
        ensures
            e == (IdtEntry { offset_low: 0, selector: 0, ist: 0, type_attr: 0, offset_mid: 0, offset_high: 0, reserved: 0 }),
    {
        IdtEntry { offset_low: 0, selector: 0, ist: 0, type_attr: 0, offset_mid: 0, offset_high: 0, reserved: 0 }
    }

    /// The handler address a descriptor points to.
    pub open spec fn handler(self) -> u64 {
        ((self.offset_high as u64) << 32u64) | ((self.offset_mid as u64) << 16u64) | (self.offset_low as u64)
    }
}

/// A gate built from an address points back to that address.
pub proof fn law_idt_entry_round_trip(handler_addr: u64, selector: u16)
    ensures
        (IdtEntry {
            offset_low: handler_addr as u16,
            selector,
            ist: 0,
            type_attr: INTERRUPT_GATE,
            offset_mid: (handler_addr >> 16u64) as u16,
            offset_high: (handler_addr >> 32u64) as u32,
            reserved: 0,
        }).handler() == handler_addr,
{
    assert(((((handler_addr >> 32u64) as u32) as u64) << 32u64) | ((((handler_addr >> 16u64) as u16) as u64) << 16u64)
        | ((handler_addr as u16) as u64) == handler_addr) by (bit_vector);
}

/// Physical address of the IDT.
pub const IDT_ADDR: u64 = 0x200000;

/// Number of IDT entries.
pub const IDT_ENTRIES: usize = 256;

/// The IDT limit loaded with `lidt`: 256 descriptors of 16 bytes, minus one.
pub const IDT_LIMIT: u16 = 4095;

/// Kernel code segment selector.
pub const KERNEL_CS: u16 = 0x08;

/// Physical address of the IDT.
pub fn get_idt_base() -> (a: u64)
    ensures
        a == IDT_ADDR,
{
    IDT_ADDR
}

/// The kernel's IDT: every vector empty except 0x80 (system call entry at
/// `syscall_addr`) and 0x20 (timer entry at `timer_addr`), both interrupt
/// gates through the kernel code segment.
pub fn build_idt(syscall_addr: u64, timer_addr: u64) -> (idt: Vec<IdtEntry>)
    ensures
        idt@.len() == IDT_ENTRIES,
        idt@[0x80].handler() == syscall_addr,
        idt@[0x20].handler() == timer_addr,
        idt@[0x80].selector == KERNEL_CS && idt@[0x80].type_attr == INTERRUPT_GATE,
        idt@[0x20].selector == KERNEL_CS && idt@[0x20].type_attr == INTERRUPT_GATE,
        forall|i: int| 0 <= i < IDT_ENTRIES && i != 0x80 && i != 0x20 ==> #[trigger] idt@[i] == IdtEntry::null_spec(),
{
    let mut idt: Vec<IdtEntry> = Vec::new();
    let mut i: usize = 0;
    while i < IDT_ENTRIES
        invariant
            i <= IDT_ENTRIES,
            idt@.len() == i,
            forall|k: int| 0 <= k < i ==> #[trigger] idt@[k] == IdtEntry::null_spec(),
        decreases IDT_ENTRIES - i,
    {
        idt.push(IdtEntry::null());
        i += 1;
    }
    let sys = IdtEntry::new(syscall_addr, KERNEL_CS);
    proof { law_idt_entry_round_trip(syscall_addr, KERNEL_CS); }
    idt.set(0x80, sys);
    let tmr = IdtEntry::new(timer_addr, KERNEL_CS);
    proof { law_idt_entry_round_trip(timer_addr, KERNEL_CS); }
    idt.set(0x20, tmr);
    idt
}

impl IdtEntry {
    /// The empty descriptor.
    pub open spec fn null_spec() -> Self {
        IdtEntry { offset_low: 0, selector: 0, ist: 0, type_attr: 0, offset_mid: 0, offset_high: 0, reserved: 0 }
    }
}

/// The model-specific register values that enable the `syscall`
/// instruction.
#[derive(Clone, Copy)]
pub struct SyscallMsrs {
    /// STAR: kernel CS 0x08 for `syscall` (bits 32..47) and the `sysret`
    /// base (bits 48..63).
    pub star: u64,
    /// LSTAR: the entry point.
    pub lstar: u64,
    /// SFMASK: RFLAGS bits cleared on entry (IF).
    pub sfmask: u64,
    /// EFER with SCE (bit 0) set.
    pub efer: u64,
}

/// The values that `syscall` setup writes, given the entry point and the
/// current EFER.
pub fn syscall_msrs(entry: u64, efer: u64) -> (m: SyscallMsrs)
    ensures
        m.star == 0x0008_0008_0000_0000,
        m.lstar == entry,
        m.sfmask == 0x200,
        m.efer == efer | 1,
{
    let star = (0x08u64 << 32) | (0x08u64 << 48);
    assert((0x08u64 << 32u64) | (0x08u64 << 48u64) == 0x0008_0008_0000_0000u64) by (bit_vector);
    SyscallMsrs { star, lstar: entry, sfmask: 0x200, efer: efer | 1 }
}

} // verus!
