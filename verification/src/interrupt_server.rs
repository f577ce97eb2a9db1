//! Routing of hardware interrupts to user-space drivers: a table of
//! handler processes per IRQ and the forwarding of IRQ messages, either to
//! the user-space interrupt server or directly to the handlers.

use vstd::prelude::*;
use crate::keyboard::{KeyEvent, decode_scancode, spec_decode_scancode, key_char, law_decode_follows_layout, law_decode_letters_and_digits, law_decode_letter_rows};
use crate::process::{IpcMessage, Pid, Process, ProcessTable, slot_of, lemma_slot_of, holds_pid, first_with_pid, IPC_QUEUE_CAPACITY};

verus! {

/// Number of hardware IRQs in the table (timer, keyboard, RTC, serial).
pub const BASE_IRQ_COUNT: usize = 4;

/// Maximum number of handler processes per IRQ.
pub const HANDLERS_PER_IRQ: usize = 4;

/// Message type of a raw IRQ sent to the interrupt server.
pub const MSG_HW_IRQ: u16 = 6;
/// Message type of a keyboard scan code delivered to a handler.
pub const MSG_KEY_SCANCODE: u16 = 3;
/// Message type of other IRQ data delivered to a handler.
pub const MSG_IRQ_DATA: u16 = 5;

/// The handler PIDs of each IRQ (0 = free slot) and the PID of the
/// user-space interrupt server (0 = none).
pub struct IrqHandlers {
    handlers: Vec<[u16; 4]>,
    server_pid: u16,
}

impl IrqHandlers {
    /// The handler slots of IRQ `irq`.
    pub closed spec fn slots(&self, irq: int) -> Seq<u16> {
        self.handlers@[irq]@
    }

    /// The interrupt server's PID.
    pub closed spec fn server(&self) -> u16 {
        self.server_pid
    }

    /// One slot row per IRQ.
    pub closed spec fn wf(&self) -> bool {
        self.handlers@.len() == BASE_IRQ_COUNT
    }

    /// Each IRQ has `HANDLERS_PER_IRQ` handler slots.
    pub proof fn lemma_slots_len(&self, irq: int)
        requires
            self.wf(),
            0 <= irq < BASE_IRQ_COUNT,
        ensures
            self.slots(irq).len() == HANDLERS_PER_IRQ,
    {
    }

    /// A table with no handler and no interrupt server.
    pub fn new() -> (t: Self)
        ensures
            t.wf(),
            t.server() == 0,
            forall|irq: int| 0 <= irq < BASE_IRQ_COUNT ==> #[trigger] t.slots(irq) == seq![0u16, 0u16, 0u16, 0u16],
    {
        let z: [u16; 4] = [0u16, 0u16, 0u16, 0u16];
        assert(z@ =~= seq![0u16, 0u16, 0u16, 0u16]);
        let mut handlers: Vec<[u16; 4]> = Vec::new();
        handlers.push(z);
        handlers.push(z);
        handlers.push(z);
        handlers.push(z);
        let t = IrqHandlers { handlers, server_pid: 0 };
        assert forall|irq: int| 0 <= irq < BASE_IRQ_COUNT implies #[trigger] t.slots(irq) == seq![0u16, 0u16, 0u16, 0u16] by {
            assert(t.handlers@[irq] == z);
        }
        t
    }

    /// Record the interrupt server's PID.
    pub fn set_interrupt_server_pid(&mut self, pid: u16)
        requires
            old(self).wf(),
        ensures
            final(self).wf(),
            final(self).server() == pid,
            forall|irq: int| #[trigger] final(self).slots(irq) == old(self).slots(irq),
    {
        self.server_pid = pid;
    }

    /// The interrupt server's PID (0 = none).
    pub fn get_interrupt_server_pid(&self) -> (pid: u16)
        ensures
            pid == self.server(),
    {
        self.server_pid
    }

    /// Register `pid` as a handler of `irq` in the first free slot. Returns
    /// `false`, changing nothing, when the IRQ is unknown, `pid` is 0 or all
    /// slots are taken. A PID may be registered more than once.
    pub fn register_handler(&mut self, irq: u8, pid: u16) -> (ok: bool)
        requires
            old(self).wf(),
        ensures
            final(self).wf(),
            final(self).server() == old(self).server(),
            ok == ((irq as int) < BASE_IRQ_COUNT && pid != 0 && old(self).slots(irq as int).contains(0u16)),
            !ok ==> *final(self) == *old(self),
            ok ==> exists|k: int| {
                &&& #[trigger] first_free(old(self).slots(irq as int), k)
                &&& final(self).slots(irq as int) == old(self).slots(irq as int).update(k, pid)
            },
            forall|j: int| 0 <= j < BASE_IRQ_COUNT && j != irq ==> #[trigger] final(self).slots(j) == old(self).slots(j),
    {
        if (irq as usize) >= BASE_IRQ_COUNT || pid == 0 {
            return false;
        }
        let row_idx = irq as usize;
        let mut row = self.handlers[row_idx];
        let mut k: usize = 0;
        while k < HANDLERS_PER_IRQ
            invariant
                self.wf(),
                *self == *old(self),
                row == self.handlers@[row_idx as int],
                row_idx == irq,
                row_idx < BASE_IRQ_COUNT,
                pid != 0,
                k <= HANDLERS_PER_IRQ,
                forall|j: int| 0 <= j < k ==> #[trigger] row@[j] != 0,
            decreases HANDLERS_PER_IRQ - k,
        {
            if row[k] == 0 {
                row[k] = pid;
                self.handlers.set(row_idx, row);
                assert(old(self).slots(irq as int)[k as int] == 0u16);
                assert(old(self).slots(irq as int).contains(0u16));
                assert forall|j: int| 0 <= j < BASE_IRQ_COUNT && j != irq implies #[trigger] self.slots(j) == old(self).slots(j) by {}
                assert(first_free(old(self).slots(irq as int), k as int));
                assert(self.slots(irq as int) =~= old(self).slots(irq as int).update(k as int, pid));
                assert(old(self).slots(irq as int)[k as int] == 0u16);
                return true;
            }
            k += 1;
        }
        assert(!old(self).slots(irq as int).contains(0u16));
        false
    }

    /// Remove `pid` from the first slot of `irq` that holds it. Returns
    /// `false`, changing nothing, when the IRQ is unknown or `pid` is not
    /// registered for it.
    pub fn unregister_handler(&mut self, irq: u8, pid: u16) -> (ok: bool)
        requires
            old(self).wf(),
        ensures
            final(self).wf(),
            final(self).server() == old(self).server(),
            ok == ((irq as int) < BASE_IRQ_COUNT && old(self).slots(irq as int).contains(pid)),
            !ok ==> *final(self) == *old(self),
            ok ==> exists|k: int| {
                &&& #[trigger] first_holding(old(self).slots(irq as int), pid, k)
                &&& final(self).slots(irq as int) == old(self).slots(irq as int).update(k, 0u16)
            },
            forall|j: int| 0 <= j < BASE_IRQ_COUNT && j != irq ==> #[trigger] final(self).slots(j) == old(self).slots(j),
    {
        if (irq as usize) >= BASE_IRQ_COUNT {
            return false;
        }
        let row_idx = irq as usize;
        let mut row = self.handlers[row_idx];
        let mut k: usize = 0;
        while k < HANDLERS_PER_IRQ
            invariant
                self.wf(),
                *self == *old(self),
                row == self.handlers@[row_idx as int],
                row_idx == irq,
                row_idx < BASE_IRQ_COUNT,
                k <= HANDLERS_PER_IRQ,
                forall|j: int| 0 <= j < k ==> #[trigger] row@[j] != pid,
            decreases HANDLERS_PER_IRQ - k,
        {
            if row[k] == pid {
                row[k] = 0;
                self.handlers.set(row_idx, row);
                assert(old(self).slots(irq as int)[k as int] == pid);
                assert(old(self).slots(irq as int).contains(pid));
                assert forall|j: int| 0 <= j < BASE_IRQ_COUNT && j != irq implies #[trigger] self.slots(j) == old(self).slots(j) by {}
                assert(first_holding(old(self).slots(irq as int), pid, k as int));
                assert(self.slots(irq as int) =~= old(self).slots(irq as int).update(k as int, 0u16));
                return true;
            }
            k += 1;
        }
        assert(!old(self).slots(irq as int).contains(pid));
        false
    }

    /// Whether any handler is registered for `irq` (false for an unknown IRQ).
    pub fn has_handler(&self, irq: u8) -> (r: bool)
        requires
            self.wf(),
        ensures
            r == ((irq as int) < BASE_IRQ_COUNT && exists|k: int| 0 <= k < HANDLERS_PER_IRQ && #[trigger] self.slots(irq as int)[k] != 0),
    {
        if (irq as usize) >= BASE_IRQ_COUNT {
            return false;
        }
        let row = self.handlers[irq as usize];
        let mut k: usize = 0;
        while k < HANDLERS_PER_IRQ
            invariant
                row@ == self.slots(irq as int),
                (irq as int) < BASE_IRQ_COUNT,
                k <= HANDLERS_PER_IRQ,
                forall|j: int| 0 <= j < k ==> #[trigger] row@[j] == 0,
            decreases HANDLERS_PER_IRQ - k,
        {
            if row[k] != 0 {
                assert(self.slots(irq as int)[k as int] != 0);
                return true;
            }
            k += 1;
        }
        false
    }

    /// The handler slots of `irq` (empty for an unknown IRQ).
    pub fn get_handlers(&self, irq: u8) -> (r: Vec<u16>)
        requires
            self.wf(),
        ensures
            (irq as int) < BASE_IRQ_COUNT ==> r@ == self.slots(irq as int),
            (irq as int) >= BASE_IRQ_COUNT ==> r@.len() == 0,
    {
        if (irq as usize) >= BASE_IRQ_COUNT {
            return Vec::new();
        }
        let row = self.handlers[irq as usize];
        let mut r: Vec<u16> = Vec::new();
        let mut k: usize = 0;
        while k < HANDLERS_PER_IRQ
            invariant
                row@ == self.slots(irq as int),
                k <= HANDLERS_PER_IRQ,
                r@ == row@.take(k as int),
            decreases HANDLERS_PER_IRQ - k,
        {
            r.push(row[k]);
            assert(r@ =~= row@.take(k + 1));
            k += 1;
        }
        assert(r@ =~= row@);
        r
    }
}

/// Slot `k` is the first free (zero) slot of `s`.
pub open spec fn first_free(s: Seq<u16>, k: int) -> bool {
    0 <= k < s.len() && s[k] == 0 && forall|j: int| 0 <= j < k ==> #[trigger] s[j] != 0
}

/// Slot `k` is the first slot of `s` holding `pid`.
pub open spec fn first_holding(s: Seq<u16>, pid: u16, k: int) -> bool {
    0 <= k < s.len() && s[k] == pid && forall|j: int| 0 <= j < k ==> #[trigger] s[j] != pid
}

/// Unregistering a PID that was just registered for an IRQ, when it was
/// not registered before, gives back the handler slots as they were.
pub proof fn law_register_unregister_round_trip(s: Seq<u16>, pid: u16, k: int, j: int)
    requires
        pid != 0,
        !s.contains(pid),
        first_free(s, k),
        first_holding(s.update(k, pid), pid, j),
    ensures
        s.update(k, pid).update(j, 0u16) == s,
{
    if j != k {
        assert(s.update(k, pid)[j] == s[j]);
        assert(s.contains(pid));
    }
    assert(s.update(k, pid).update(j, 0u16) =~= s);
}

/// Every process in the table has its IPC ring indices in range.
pub open spec fn ipc_indices_ok(s: Seq<Option<Process>>) -> bool {
    forall|i: int| 0 <= i < s.len() && #[trigger] s[i] is Some ==> s[i]->0.ipc_wf()
}

/// Payload of the IRQ message for the interrupt server.
pub open spec fn hw_irq_payload(irq: u8, data: Seq<u8>) -> Seq<u8> {
    seq![irq] + data.take(59)
}

/// How many of the first `n` entries of `pids` name a process that a lookup
/// in `s` finds in slot `i` (entries 0 name no process).
pub open spec fn hits(s: Seq<Option<Process>>, pids: Seq<u16>, n: int, i: int) -> nat
    decreases n,
{
    if n <= 0 {
        0
    } else {
        hits(s, pids, n - 1, i) + if pids[n - 1] != 0 && slot_of(s, pids[n - 1]) == Some(i) { 1nat } else { 0nat }
    }
}

/// How many of `k` messages a queue holding `len` messages takes in, one
/// after the other: as many as fit while one slot stays free.
pub open spec fn accepted(len: int, k: int) -> int {
    let room = IPC_QUEUE_CAPACITY - 1 - len;
    if room <= 0 { 0 } else if k < room { k } else { room }
}

/// Process `q` is `p` with `k` messages from the kernel of type `msg_type`
/// carrying `data` appended to its IPC queue (and `p` itself when `k` is 0).
pub open spec fn appended(p: Process, q: Process, k: int, msg_type: u16, data: Seq<u8>) -> bool {
    &&& k == 0 ==> q == p
    &&& q.same_except_ipc(&p)
    &&& q.ipc_pending().len() == p.ipc_pending().len() + k
    &&& p.ipc_pending().is_prefix_of(q.ipc_pending())
    &&& forall|j: int| p.ipc_pending().len() <= j < q.ipc_pending().len() ==> {
        &&& #[trigger] q.ipc_pending()[j] is Some
        &&& q.ipc_pending()[j]->0.src_pid == 0
        &&& q.ipc_pending()[j]->0.msg_type == msg_type
        &&& q.ipc_pending()[j]->0.data@ == data
    }
}

/// `s1` is `s0` after one message of type `msg_type` carrying `data` was
/// sent from the kernel for each of the first `n` entries of `pids`, in
/// order: each process takes in as many of those naming it as its queue
/// has room for (see `hits`, `accepted`); nothing else changes.
pub open spec fn received_each(s0: Seq<Option<Process>>, s1: Seq<Option<Process>>, pids: Seq<u16>, n: int, msg_type: u16, data: Seq<u8>) -> bool {
    &&& s1.len() == s0.len()
    &&& forall|i: int| 0 <= i < s1.len() ==> (#[trigger] s1[i] is Some) == (s0[i] is Some)
    &&& forall|i: int| 0 <= i < s1.len() && #[trigger] s1[i] is Some ==>
            appended(s0[i]->0, s1[i]->0, accepted(s0[i]->0.ipc_len(), hits(s0, pids, n, i) as int), msg_type, data)
}

/// The PIDs that forwarding IRQ `irq` sends to: the interrupt server when
/// there is one, else the handler slots of `irq`.
pub open spec fn irq_targets(handlers: &IrqHandlers, irq: u8) -> Seq<u16> {
    if handlers.server() != 0 {
        seq![handlers.server()]
    } else if (irq as int) < BASE_IRQ_COUNT {
        handlers.slots(irq as int)
    } else {
        Seq::<u16>::empty()
    }
}

/// Each process that a lookup of a nonzero PID of `pids` finds has its IPC
/// ring indices in range.
pub open spec fn targets_ipc_ok(s: Seq<Option<Process>>, pids: Seq<u16>) -> bool {
    forall|k: int| 0 <= k < pids.len() && #[trigger] pids[k] != 0 ==>
        (slot_of(s, pids[k]) matches Some(i) ==> s[i]->0.ipc_wf())
}

/// Forward hardware IRQ `irq` with payload `data`. With an interrupt
/// server registered, one `MSG_HW_IRQ` message goes to it; otherwise a
/// message carrying `data` (type `MSG_KEY_SCANCODE` for IRQ 1,
/// `MSG_IRQ_DATA` for others) goes to each registered handler slot of
/// `irq` in order. Messages to unknown processes or full queues are
/// dropped.
pub fn forward_irq(handlers: &IrqHandlers, table: &mut ProcessTable, irq: u8, data: &[u8; 60])
    requires
        handlers.wf(),
        old(table).wf(),
        targets_ipc_ok(old(table).slots(), irq_targets(handlers, irq)),
    ensures
        final(table).wf(),
        ipc_indices_ok(old(table).slots()) ==> ipc_indices_ok(final(table).slots()),
        final(table).current() == old(table).current(),
        final(table).next_pid_spec() == old(table).next_pid_spec(),
        handlers.server() != 0 ==> received_each(old(table).slots(), final(table).slots(),
            seq![handlers.server()], 1, MSG_HW_IRQ, hw_irq_payload(irq, data@)),
        handlers.server() == 0 ==> {
            let pids = if (irq as int) < BASE_IRQ_COUNT { handlers.slots(irq as int) } else { Seq::<u16>::empty() };
            received_each(old(table).slots(), final(table).slots(), pids, pids.len() as int,
                if irq == 1 { MSG_KEY_SCANCODE } else { MSG_IRQ_DATA }, data@)
        },
{
    let isr_pid = handlers.get_interrupt_server_pid();
    if isr_pid != 0 {
        let mut d = [0u8; 60];
        d[0] = irq;
        let mut k: usize = 1;
        while k < 60
            invariant
                1 <= k <= 60,
                d@.len() == 60,
                d@[0] == irq,
                forall|j: int| 1 <= j < k ==> #[trigger] d@[j] == data@[j - 1],
            decreases 60 - k,
        {
            d[k] = data[k - 1];
            k += 1;
        }
        assert(d@ =~= hw_irq_payload(irq, data@));
        let msg = IpcMessage::new(0, MSG_HW_IRQ, d);
        let ghost pids = seq![isr_pid];
        proof {
            lemma_received_none(old(table).slots(), pids, MSG_HW_IRQ, d@);
            assert(pids[0] != 0);
        }
        deliver(table, isr_pid, msg);
        proof { lemma_received_step(old(table).slots(), old(table).slots(), table.slots(), pids, 0, msg); }
    } else {
        let msg_type: u16 = if irq == 1 { MSG_KEY_SCANCODE } else { MSG_IRQ_DATA };
        let pids = handlers.get_handlers(irq);
        let mut k: usize = 0;
        proof { lemma_received_none(old(table).slots(), pids@, msg_type, data@); }
        while k < pids.len()
            invariant
                table.wf(),
                pids@ == irq_targets(handlers, irq),
                targets_ipc_ok(old(table).slots(), pids@),
                targets_ipc_ok(table.slots(), pids@),
                ipc_indices_ok(old(table).slots()) ==> ipc_indices_ok(table.slots()),
                table.current() == old(table).current(),
                table.next_pid_spec() == old(table).next_pid_spec(),
                k <= pids@.len(),
                received_each(old(table).slots(), table.slots(), pids@, k as int, msg_type, data@),
            decreases pids@.len() - k,
        {
            let pid = pids[k];
            let ghost before = table.slots();
            if pid != 0 {
                let msg = IpcMessage::new(0, msg_type, *data);
                assert(pids@[k as int] != 0);
                deliver(table, pid, msg);
                proof { lemma_received_step(old(table).slots(), before, table.slots(), pids@, k as int, msg); }
            } else {
                proof { lemma_received_skip(old(table).slots(), before, pids@, k as int, msg_type, data@); }
            }
            k += 1;
        }
    }
}

/// Lookups find the same slots in two tables whose slots hold processes
/// with the same PIDs.
proof fn lemma_slot_of_same(s0: Seq<Option<Process>>, s1: Seq<Option<Process>>, pid: Pid)
    requires
        s1.len() == s0.len(),
        forall|i: int| 0 <= i < s1.len() ==> (#[trigger] s1[i] is Some) == (s0[i] is Some),
        forall|i: int| 0 <= i < s1.len() && #[trigger] s1[i] is Some ==> s1[i]->0.pid == s0[i]->0.pid,
    ensures
        slot_of(s1, pid) == slot_of(s0, pid),
{
    lemma_slot_of(s0, pid);
    lemma_slot_of(s1, pid);
    assert forall|i: int| #[trigger] holds_pid(s1, i, pid) == holds_pid(s0, i, pid) by {
        if 0 <= i < s1.len() && s1[i] is Some {}
    }
    match slot_of(s0, pid) {
        Some(i) => {
            assert(first_with_pid(s1, pid, i));
        },
        None => {},
    }
}

proof fn lemma_received_none(s: Seq<Option<Process>>, pids: Seq<u16>, msg_type: u16, data: Seq<u8>)
    ensures
        received_each(s, s, pids, 0, msg_type, data),
{
    assert forall|i: int| 0 <= i < s.len() && #[trigger] s[i] is Some implies
        appended(s[i]->0, s[i]->0, accepted(s[i]->0.ipc_len(), hits(s, pids, 0, i) as int), msg_type, data) by {
        assert(s[i]->0.ipc_pending().is_prefix_of(s[i]->0.ipc_pending()));
    }
}

proof fn lemma_received_skip(s0: Seq<Option<Process>>, s1: Seq<Option<Process>>, pids: Seq<u16>, k: int, msg_type: u16, data: Seq<u8>)
    requires
        0 <= k < pids.len(),
        pids[k] == 0,
        received_each(s0, s1, pids, k, msg_type, data),
    ensures
        received_each(s0, s1, pids, k + 1, msg_type, data),
{
    assert forall|i: int| hits(s0, pids, k + 1, i) == hits(s0, pids, k, i) by {}
}

/// One more delivery, to the process that entry `k` of `pids` names,
/// extends what the first `k` entries delivered.
proof fn lemma_received_step(
    s0: Seq<Option<Process>>, s1: Seq<Option<Process>>, s2: Seq<Option<Process>>,
    pids: Seq<u16>, k: int, msg: IpcMessage,
)
    requires
        0 <= k < pids.len(),
        pids[k] != 0,
        slot_of(s0, pids[k]) matches Some(i) ==> s0[i]->0.ipc_wf(),
        received_each(s0, s1, pids, k, msg.msg_type, msg.data@),
        msg.src_pid == 0,
        delivered_to(s1, s2, pids[k], msg),
    ensures
        received_each(s0, s2, pids, k + 1, msg.msg_type, msg.data@),
{
    let pid = pids[k];
    let t = msg.msg_type;
    let d = msg.data@;
    assert forall|i: int| 0 <= i < s1.len() && #[trigger] s1[i] is Some implies s1[i]->0.pid == s0[i]->0.pid by {
        assert(appended(s0[i]->0, s1[i]->0, accepted(s0[i]->0.ipc_len(), hits(s0, pids, k, i) as int), t, d));
    }
    lemma_slot_of_same(s0, s1, pid);
    assert forall|i: int| 0 <= i < s2.len() && #[trigger] s2[i] is Some implies
        appended(s0[i]->0, s2[i]->0, accepted(s0[i]->0.ipc_len(), hits(s0, pids, k + 1, i) as int), t, d) by {
        let p0 = s0[i]->0;
        let p1 = s1[i]->0;
        let h = hits(s0, pids, k, i) as int;
        assert(s1[i] is Some);
        assert(appended(p0, p1, accepted(p0.ipc_len(), h), t, d));
        if slot_of(s0, pid) == Some(i) {
            assert(p0.ipc_wf());
            let p2 = s2[i]->0;
            assert(hits(s0, pids, k + 1, i) == h + 1);
            assert(p1.ipc_pending().len() == p1.ipc_len());
            assert(p0.ipc_pending().len() == p0.ipc_len());
            if p1.ipc_len() < IPC_QUEUE_CAPACITY - 1 {
                assert(p2.ipc_pending() == p1.ipc_pending().push(Some(msg)));
                assert(accepted(p0.ipc_len(), h + 1) == accepted(p0.ipc_len(), h) + 1);
                assert forall|j: int| p0.ipc_pending().len() <= j < p2.ipc_pending().len() implies {
                    &&& #[trigger] p2.ipc_pending()[j] is Some
                    &&& p2.ipc_pending()[j]->0.src_pid == 0
                    &&& p2.ipc_pending()[j]->0.msg_type == t
                    &&& p2.ipc_pending()[j]->0.data@ == d
                } by {
                    if j < p1.ipc_pending().len() {
                        assert(p2.ipc_pending()[j] == p1.ipc_pending()[j]);
                        assert(p1.ipc_pending()[j] is Some);
                    }
                }
                assert(p0.ipc_pending().is_prefix_of(p2.ipc_pending())) by {
                    assert forall|j: int| 0 <= j < p0.ipc_pending().len() implies p2.ipc_pending()[j] == p0.ipc_pending()[j] by {
                        assert(p2.ipc_pending()[j] == p1.ipc_pending()[j]);
                        assert(p1.ipc_pending()[j] == p0.ipc_pending()[j]);
                    }
                }
            } else {
                assert(p2 == p1);
                assert(accepted(p0.ipc_len(), h + 1) == accepted(p0.ipc_len(), h));
            }
        } else {
            assert(hits(s0, pids, k + 1, i) == h);
            assert(s2[i] == s1[i]);
        }
    }
}

/// `s1` is `s0` after `msg` was pushed into the IPC queue of the process
/// that a lookup of `pid` finds, where its queue has room.
pub open spec fn delivered_to(s0: Seq<Option<Process>>, s1: Seq<Option<Process>>, pid: Pid, msg: IpcMessage) -> bool {
    &&& s1.len() == s0.len()
    &&& forall|i: int| 0 <= i < s1.len() ==> (#[trigger] s1[i] is Some) == (s0[i] is Some)
    &&& forall|i: int| 0 <= i < s1.len() && slot_of(s0, pid) != Some(i) ==> #[trigger] s1[i] == s0[i]
    &&& slot_of(s0, pid) matches Some(i) ==> {
        let p = s0[i]->0;
        let q = s1[i]->0;
        if p.ipc_len() < IPC_QUEUE_CAPACITY - 1 {
            &&& q.same_except_ipc(&p)
            &&& q.ipc_pending() == p.ipc_pending().push(Some(msg))
        } else {
            q == p
        }
    }
}

/// Push `msg` into the IPC queue of process `pid`, if there is one and its
/// queue has room.
fn deliver(table: &mut ProcessTable, pid: Pid, msg: IpcMessage)
    requires
        old(table).wf(),
        slot_of(old(table).slots(), pid) matches Some(i) ==> old(table).slots()[i]->0.ipc_wf(),
    ensures
        final(table).wf(),
        ipc_indices_ok(old(table).slots()) ==> ipc_indices_ok(final(table).slots()),
        forall|q: Pid| #[trigger] slot_of(final(table).slots(), q) == slot_of(old(table).slots(), q),
        forall|i: int| 0 <= i < final(table).slots().len() && old(table).slots()[i] is Some && old(table).slots()[i]->0.ipc_wf()
            ==> #[trigger] final(table).slots()[i]->0.ipc_wf(),
        final(table).current() == old(table).current(),
        final(table).next_pid_spec() == old(table).next_pid_spec(),
        delivered_to(old(table).slots(), final(table).slots(), pid, msg),
{
    proof { lemma_slot_of(table.slots(), pid); }
    if let Some(p) = table.get_mut(pid) {
        let _ = p.ipc_push(msg);
    }
    proof {
        assert forall|q: Pid| #[trigger] slot_of(table.slots(), q) == slot_of(old(table).slots(), q) by {
            lemma_slot_of_same(old(table).slots(), table.slots(), q);
        }
    }
}

/// The character echoed for a PC set-1 scan code: the character of a
/// character key (see `keyboard::spec_decode_scancode`), a newline for
/// Enter, 0x08 for Backspace, a tab for Tab (0x0F), `?` for any other code.
pub open spec fn echo_char(sc: u8) -> u8 {
    match spec_decode_scancode(sc) {
        Some(KeyEvent::Char(c)) => c,
        Some(KeyEvent::Enter) => 10u8,
        Some(KeyEvent::Backspace) => 8u8,
        None => if sc == 0x0F { 9u8 } else { 63u8 },
    }
}

/// The quick echo shows what a key types: a character key its character
/// (the letter keys their lower-case letters in layout order, the digits
/// '1' to '9' for 0x02..=0x0A), Enter a newline, Backspace 0x08, Tab
/// (0x0F) a tab, and any code without a key `?`.
pub proof fn law_echo_matches_keys(sc: u8, i: int)
    ensures
        spec_decode_scancode(sc) matches Some(KeyEvent::Char(c)) ==> echo_char(sc) == c,
        sc == 0x1C ==> echo_char(sc) == 10,
        sc == 0x0E ==> echo_char(sc) == 8,
        sc == 0x0F ==> echo_char(sc) == 9,
        key_char(sc) is None && sc != 0x1C && sc != 0x0E && sc != 0x0F ==> echo_char(sc) == 63,
        0x02 <= sc <= 0x0A ==> echo_char(sc) == sc + 47,
        0 <= i < 10 ==> echo_char((0x10 + i) as u8)
            == seq![113u8, 119u8, 101u8, 114u8, 116u8, 121u8, 117u8, 105u8, 111u8, 112u8][i],
        0 <= i < 9 ==> echo_char((0x1E + i) as u8)
            == seq![97u8, 115u8, 100u8, 102u8, 103u8, 104u8, 106u8, 107u8, 108u8][i],
        0 <= i < 7 ==> echo_char((0x2C + i) as u8) == seq![122u8, 120u8, 99u8, 118u8, 98u8, 110u8, 109u8][i],
{
    law_decode_follows_layout(sc);
    law_decode_letters_and_digits(sc, sc);
    law_decode_letter_rows(i);
}

/// Translate a scan code to ASCII for the interrupt server's quick echo
/// (see `echo_char`).
pub fn translate_scancode(scancode: u8) -> (c: u8)
    ensures
        c == echo_char(scancode),
{
    match decode_scancode(scancode) {
        Some(KeyEvent::Char(c)) => c,
        Some(KeyEvent::Enter) => 10u8,
        Some(KeyEvent::Backspace) => 8u8,
        None => if scancode == 0x0F { 9u8 } else { 63u8 },
    }
}

} // verus!
