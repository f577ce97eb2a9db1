//! Signals: a per-process bitmap of pending signals, delivered one at a
//! time (lowest number first) to the process's registered handler, or
//! according to the signal's default action when it has none.

use vstd::prelude::*;
use vstd::std_specs::bits::axiom_u64_trailing_zeros;
use vstd::bytes::{u64_to_le_bytes, spec_u64_to_le_bytes, spec_u64_from_le_bytes, lemma_auto_spec_u64_to_from_le_bytes};
use crate::bitops::{bit_of, lemma_set_bit, lemma_clear_bit};
use crate::paging::{PhysicalMemory, USER_STACK_VADDR, PHYS_MEM_END};
use crate::process::{Pid, Process, ProcessRegisters, ProcessState, ProcessTable, slot_of, lemma_slot_of};

pub mod sig_num;

verus! {

/// Maximum number of distinct signals.
pub const MAX_SIGNALS: usize = 64;

/// How a process handles a signal.
#[derive(Debug, Clone, Copy, PartialEq, Eq, Structural)]
pub enum SignalAction {
    /// Terminate the process.
    Kill,
    /// Ignore the signal.
    Ignore,
    /// Call the registered handler, if any.
    Handler,
}

/// The default action of signal `sig`: alarm, IPC and child-exit
/// notifications are ignored; every other signal kills.
pub open spec fn spec_default_action(sig: usize) -> SignalAction {
    if sig == sig_num::SIGALRM || sig == sig_num::SIGIPC || sig == sig_num::SIGCHLD {
        SignalAction::Ignore
    } else {
        SignalAction::Kill
    }
}

/// Default action for each signal number (see `spec_default_action`).
pub fn default_action(sig: usize) -> (a: SignalAction)
    ensures
        a == spec_default_action(sig),
{
    match sig {
        sig_num::SIGKILL => SignalAction::Kill,
        sig_num::SIGSEGV => SignalAction::Kill,
        sig_num::SIGILL => SignalAction::Kill,
        sig_num::SIGTERM => SignalAction::Kill,
        sig_num::SIGALRM => SignalAction::Ignore,
        sig_num::SIGIPC => SignalAction::Ignore,
        sig_num::SIGCHLD => SignalAction::Ignore,
        _ => SignalAction::Kill,
    }
}

/// Process `p` after signal `sig` was sent: the signal is pending and a
/// blocked process is woken up.
pub open spec fn signalled(p: Process, sig: usize) -> Process {
    Process {
        signal_pending: p.signal_pending | (1u64 << (sig as u64)),
        state: if p.state == ProcessState::Blocked { ProcessState::Ready } else { p.state },
        ..p
    }
}

/// Send signal `sig` to process `pid`: set its pending bit and wake it up
/// if it is blocked. Nothing happens for `sig >= MAX_SIGNALS` or an
/// unknown PID.
pub fn send_signal(table: &mut ProcessTable, pid: Pid, sig: usize)
    requires
        old(table).wf(),
    ensures
        final(table).wf(),
        final(table).next_pid_spec() == old(table).next_pid_spec(),
        final(table).current() == old(table).current(),
        sig < MAX_SIGNALS ==> final(table).slots() == match slot_of(old(table).slots(), pid) {
            None => old(table).slots(),
            Some(i) => old(table).slots().update(i, Some(signalled(old(table).slots()[i]->0, sig))),
        },
        sig >= MAX_SIGNALS ==> *final(table) == *old(table),
{
    if sig >= MAX_SIGNALS {
        return;
    }
    proof { lemma_slot_of(table.slots(), pid); }
    if let Some(p) = table.get_mut(pid) {
        p.signal_pending = p.signal_pending | (1u64 << sig as u64);
        if p.state == ProcessState::Blocked {
            p.state = ProcessState::Ready;
        }
    }
}

/// The signal that is delivered next from `pending`: its lowest set bit.
pub open spec fn lowest_pending(pending: u64, sig: int) -> bool {
    bit_of(pending, sig) && forall|j: int| 0 <= j < sig ==> !#[trigger] bit_of(pending, j)
}

/// The action taken for signal `sig` by process `p`: its registered
/// handler if it has one, the default action otherwise.
pub open spec fn signal_action(p: Process, sig: int) -> SignalAction {
    if p.signal_handlers@[sig] is Some {
        SignalAction::Handler
    } else {
        spec_default_action(sig as usize)
    }
}

/// The stack pointer after pushing one 64-bit word on a stack at `rsp`
/// (wrapping).
pub open spec fn pushed_rsp(rsp: u64) -> u64 {
    if rsp >= 8 { (rsp - 8) as u64 } else { (rsp + 0x1_0000_0000_0000_0000 - 8) as u64 }
}

/// A handler frame can be pushed at `new_rsp`: it lies in the top 32 KiB
/// below the user stack top.
pub open spec fn handler_frame_ok(new_rsp: u64) -> bool {
    USER_STACK_VADDR - 4096 * 8 < new_rsp && new_rsp <= u64::MAX - 8
}

/// Process `p` after signal `sig` was delivered: the signal is no longer
/// pending; a killing signal terminates the process; a handled one, where
/// the handler frame fits, moves the stack pointer one word down (the old
/// instruction pointer is stored there) and starts the handler.
pub open spec fn after_signal(p: Process, sig: int) -> Process {
    let cleared = p.signal_pending & !(1u64 << (sig as u64));
    match signal_action(p, sig) {
        SignalAction::Kill => Process { signal_pending: cleared, state: ProcessState::Terminated, ..p },
        SignalAction::Ignore => Process { signal_pending: cleared, ..p },
        SignalAction::Handler => {
            let new_rsp = pushed_rsp(p.registers.rsp);
            if handler_frame_ok(new_rsp) {
                Process {
                    signal_pending: cleared,
                    registers: ProcessRegisters { rsp: new_rsp, rip: p.signal_handlers@[sig]->0, ..p.registers },
                    ..p
                }
            } else {
                Process { signal_pending: cleared, ..p }
            }
        },
    }
}

/// What delivering signal `sig` to `p` does to memory: the old instruction
/// pointer is written at the new stack pointer when a handler starts;
/// nothing changes otherwise.
pub open spec fn handler_memory(p: Process, sig: int, m0: PhysicalMemory, m1: PhysicalMemory) -> bool {
    let new_rsp = pushed_rsp(p.registers.rsp);
    if signal_action(p, sig) == SignalAction::Handler && handler_frame_ok(new_rsp) {
        &&& m1.wf()
        &&& forall|j: int| #[trigger] m1.is_free(j) == m0.is_free(j)
        &&& forall|a: int| 0 <= a ==> #[trigger] m1.byte(a) ==
                if new_rsp <= a < new_rsp + 8 && a < PHYS_MEM_END {
                    spec_u64_to_le_bytes(p.registers.rip)[a - new_rsp]
                } else {
                    m0.byte(a)
                }
    } else {
        m1 == m0
    }
}

/// `q` and memory `m1` are `p` and `m0` after one round of signal delivery:
/// nothing when no signal is pending, otherwise the lowest pending signal
/// delivered (see `after_signal`, `handler_memory`).
pub open spec fn signal_delivered(p: Process, q: Process, m0: PhysicalMemory, m1: PhysicalMemory) -> bool {
    if p.signal_pending == 0 {
        q == p && m1 == m0
    } else {
        exists|sig: int| #[trigger] lowest_pending(p.signal_pending, sig)
            && q == after_signal(p, sig) && handler_memory(p, sig, m0, m1)
    }
}

/// Deliver one pending signal to process `pid`: the lowest pending signal
/// (see `after_signal`). Returns `true` when a signal was handled, `false`
/// (nothing changes) when the process does not exist or has no pending
/// signal. When a handler starts, the old instruction pointer is written
/// (little endian) at the new stack pointer; memory is otherwise unchanged.
pub fn deliver_pending(table: &mut ProcessTable, mem: &mut PhysicalMemory, pid: Pid) -> (handled: bool)
    requires
        old(table).wf(),
        old(mem).wf(),
    ensures
        final(table).wf(),
        final(mem).wf(),
        final(table).next_pid_spec() == old(table).next_pid_spec(),
        final(table).current() == old(table).current(),
        handled == (slot_of(old(table).slots(), pid) matches Some(i) && old(table).slots()[i]->0.signal_pending != 0),
        !handled ==> *final(table) == *old(table) && *final(mem) == *old(mem),
        handled ==> {
            let i = slot_of(old(table).slots(), pid)->0;
            &&& final(table).slots() == old(table).slots().update(i, final(table).slots()[i])
            &&& final(table).slots()[i] matches Some(q)
                && signal_delivered(old(table).slots()[i]->0, q, *old(mem), *final(mem))
        },
{
    proof { lemma_slot_of(table.slots(), pid); }
    let pending = match table.get(pid) {
        Some(p) => p.signal_pending,
        None => { return false; },
    };
    if pending == 0 {
        return false;
    }
    let proc = if let Some(p) = table.get_mut(pid) {
        p
    } else {
        return false;
    };
    let tz = pending.trailing_zeros();
    proof { axiom_u64_trailing_zeros(pending); }
    let sig = tz as usize;
    proof {
        assert(lowest_pending(pending, sig as int)) by {
            assert forall|j: int| 0 <= j < sig implies !#[trigger] bit_of(pending, j) by {
                assert((pending >> (j as u64)) & 1u64 == 0u64);
            }
        }
    }
    let action = if proc.signal_handlers[sig].is_some() { SignalAction::Handler } else { default_action(sig) };
    proc.signal_pending = proc.signal_pending & !(1u64 << sig as u64);
    match action {
        SignalAction::Kill => {
            proc.state = ProcessState::Terminated;
            true
        },
        SignalAction::Ignore => {
            true
        },
        SignalAction::Handler => {
            if let Some(handler_addr) = proc.signal_handlers[sig] {
                let old_rsp = proc.registers.rsp;
                let new_rsp = old_rsp.wrapping_sub(8);
                let old_rip = proc.registers.rip;
                if new_rsp > USER_STACK_VADDR - 4096 * 8 && new_rsp <= u64::MAX - 8 {
                    let bytes = u64_to_le_bytes(old_rip);
                    mem.write_bytes(new_rsp, bytes.as_slice());
                    proc.registers.rsp = new_rsp;
                    proc.registers.rip = handler_addr;
                }
            } else {
                proc.state = ProcessState::Terminated;
            }
            true
        },
    }
}

/// Only the alarm (3), IPC (4) and child-exit (6) signals are ignored by
/// default; every other signal, the segmentation fault (1) among them,
/// kills.
pub proof fn law_default_actions(sig: usize)
    ensures
        (spec_default_action(sig) == SignalAction::Ignore) == (sig == 3 || sig == 4 || sig == 6),
        (spec_default_action(sig) == SignalAction::Kill) == !(sig == 3 || sig == 4 || sig == 6),
{
}

/// Delivering signal `sig` to a process that registered no handler for it
/// clears the signal and, unless it is the alarm (3), IPC (4) or
/// child-exit (6) signal, terminates the process; those three leave the
/// process as it was but for the pending bit. Registers, memory regions,
/// queue and everything else are kept in every case.
pub proof fn law_unhandled_signal(p: Process, sig: int)
    requires
        0 <= sig < 64,
        p.signal_handlers@[sig] is None,
    ensures
        after_signal(p, sig).signal_pending == p.signal_pending & !(1u64 << (sig as u64)),
        after_signal(p, sig).state == if sig == 3 || sig == 4 || sig == 6 { p.state } else { ProcessState::Terminated },
        after_signal(p, sig) == (Process { signal_pending: after_signal(p, sig).signal_pending, state: after_signal(p, sig).state, ..p }),
{
}

/// Delivering signal `sig` to a process with a handler for it never
/// terminates it: when the handler frame fits, the process resumes at the
/// handler with the stack one word lower; otherwise only the pending bit
/// is cleared.
pub proof fn law_handled_signal(p: Process, sig: int)
    requires
        0 <= sig < 64,
        p.signal_handlers@[sig] is Some,
    ensures
        after_signal(p, sig).state == p.state,
        after_signal(p, sig).signal_pending == p.signal_pending & !(1u64 << (sig as u64)),
        handler_frame_ok(pushed_rsp(p.registers.rsp)) ==> {
            &&& after_signal(p, sig).registers.rip == p.signal_handlers@[sig]->0
            &&& after_signal(p, sig).registers.rsp == pushed_rsp(p.registers.rsp)
            &&& after_signal(p, sig).registers.rsp + 8 == p.registers.rsp
        },
{
    assert(handler_frame_ok(pushed_rsp(p.registers.rsp)) ==> p.registers.rsp >= 8);
}

/// The signal delivered first is the lowest pending one: its bit is set and
/// no lower bit is.
pub proof fn law_lowest_first(pending: u64, sig: int)
    requires
        lowest_pending(pending, sig),
    ensures
        0 <= sig < 64,
        (pending >> (sig as u64)) & 1u64 == 1u64,
        forall|j: u64| j < sig ==> #[trigger] ((pending >> j) & 1u64) == 0u64,
{
    assert forall|j: u64| j < sig implies #[trigger] ((pending >> j) & 1u64) == 0u64 by {
        assert(!bit_of(pending, j as int));
        assert(((pending >> j) & 1u64) == 0u64 || ((pending >> j) & 1u64) == 1u64) by (bit_vector);
    }
}

/// Sending signal `sig` marks exactly that signal pending, keeping every
/// other pending bit, wakes a blocked process (it becomes ready), leaves
/// any other state as it is, and changes nothing else.
pub proof fn law_signal_sent(p: Process, sig: usize, j: u64)
    requires
        sig < 64,
        j < 64,
    ensures
        (signalled(p, sig).signal_pending >> j) & 1u64 == if j == sig as u64 { 1u64 } else { (p.signal_pending >> j) & 1u64 },
        signalled(p, sig).state == if p.state == ProcessState::Blocked { ProcessState::Ready } else { p.state },
        signalled(p, sig) == (Process { signal_pending: signalled(p, sig).signal_pending, state: signalled(p, sig).state, ..p }),
{
    let x = p.signal_pending;
    let b = sig as u64;
    assert(((x | (1u64 << b)) >> j) & 1u64 == if j == b { 1u64 } else { (x >> j) & 1u64 }) by (bit_vector)
        requires b < 64, j < 64;
}

/// Delivery clears the delivered signal's pending bit and keeps every
/// other one.
pub proof fn law_delivery_clears_its_bit(p: Process, sig: int, j: u64)
    requires
        0 <= sig < 64,
        j < 64,
    ensures
        (after_signal(p, sig).signal_pending >> j) & 1u64 == if j == sig as u64 { 0u64 } else { (p.signal_pending >> j) & 1u64 },
{
    let x = p.signal_pending;
    let b = sig as u64;
    assert(((x & !(1u64 << b)) >> j) & 1u64 == if j == b { 0u64 } else { (x >> j) & 1u64 }) by (bit_vector)
        requires b < 64, j < 64;
}

/// When a handler starts, the interrupted instruction pointer can be read
/// back (little endian) from the eight bytes at the new stack pointer.
pub proof fn law_handler_saves_rip(p: Process, sig: int, m0: PhysicalMemory, m1: PhysicalMemory)
    requires
        handler_memory(p, sig, m0, m1),
        signal_action(p, sig) == SignalAction::Handler,
        handler_frame_ok(pushed_rsp(p.registers.rsp)),
        pushed_rsp(p.registers.rsp) + 8 <= PHYS_MEM_END,
    ensures
        spec_u64_from_le_bytes(Seq::new(8, |k: int| m1.byte(pushed_rsp(p.registers.rsp) + k))) == p.registers.rip,
{
    let r = pushed_rsp(p.registers.rsp);
    assert(Seq::new(8, |k: int| m1.byte(r + k)) =~= spec_u64_to_le_bytes(p.registers.rip)) by {
        lemma_auto_spec_u64_to_from_le_bytes();
        assert forall|k: int| 0 <= k < 8 implies #[trigger] m1.byte(r + k) == spec_u64_to_le_bytes(p.registers.rip)[k] by {
            assert(m1.byte(r + k) == spec_u64_to_le_bytes(p.registers.rip)[(r + k) - r]);
        }
    }
    lemma_auto_spec_u64_to_from_le_bytes();
}

} // verus!
