//! Process management: process control blocks, their IPC queues, the
//! fixed-size process table, the user PID pool and round-robin scheduling.

use vstd::prelude::*;
use crate::paging::{MemoryRegion, PhysicalMemory, create_address_space, address_space_layout, entry_addr,
    lemma_table_word_frame, lemma_lowest_free_unique, lemma_layout_kept, spec_frame_addr, spec_frame_idx, PAGE_SIZE, PHYS_MEM_END, PHYS_MEM_START,
    USER_STACK_SIZE, USER_STACK_VADDR, USER_VADDR_START, space_tables_in_use, only_free_frames_changed, lemma_space_kept};
use crate::capability::{bit_set, required_send_cap, check_ipc_send};
use crate::interrupt_server::ipc_indices_ok;
use crate::paging::{word_frame, munmap_range, unmapped_from, NUM_FRAMES, USER_VADDR_LOAD};
use crate::paging::cow::{copy_page_table_cow, cow_entry, only_free_changed, src_tree_ok, pml4_copied, tree_tables};
use crate::paging::cow_mark::{pml4_marked, lemma_tree_same, lemma_marked_same_source, lemma_same_tree_tables};
use crate::paging::is_present;
use crate::filesystem::{DirEntry, FileSystem, MAX_FDS, spec_find_file, lemma_find_file};
use crate::image::{image_fits, is_seg_page, page_in_place};
use crate::elf::{load_elf, load_page, page_loaded, image_loaded, header_error, segments_fit, elf_entry, total_pages};
use vstd::slice::slice_subrange;
use vstd::string::StringSliceAdditionalSpecFns;

verus! {

/// User PID pool size (maximum number of concurrent user PIDs).
pub const USER_PIDS_COUNT: usize = 16;

/// Slots of user PIDs: slot `i` tracks PID `i + 1`, 0 meaning free.
pub struct UserPidPool {
    slots: Vec<u16>,
}

impl UserPidPool {
    /// Whether PID `i + 1` is in use, for each slot `i`.
    pub closed spec fn view(&self) -> Seq<bool> {
        self.slots@.map_values(|s: u16| s != 0)
    }

    /// The pool has one slot per user PID.
    pub closed spec fn wf(&self) -> bool {
        self.slots@.len() == USER_PIDS_COUNT
    }

    /// A pool with every PID free.
    pub fn new() -> (p: Self)
        ensures
            p.wf(),
            p@ == Seq::new(USER_PIDS_COUNT as nat, |i: int| false),
    {
        let p = UserPidPool { slots: vec![0u16; USER_PIDS_COUNT] };
        assert(p@ =~= Seq::new(USER_PIDS_COUNT as nat, |i: int| false));
        p
    }
}

/// The lowest free slot of a pool view, if any.
pub open spec fn first_free_slot(s: Seq<bool>, i: int) -> bool {
    0 <= i < s.len() && !s[i] && forall|j: int| 0 <= j < i ==> #[trigger] s[j]
}

/// Allocate the lowest free user PID (slot index + 1) and mark it in use;
/// 0 when every PID is taken.
pub fn alloc_user_pid(pool: &mut UserPidPool) -> (pid: u16)
    requires
        old(pool).wf(),
    ensures
        final(pool).wf(),
        pid == 0 <==> forall|j: int| 0 <= j < USER_PIDS_COUNT ==> #[trigger] old(pool)@[j],
        pid == 0 ==> final(pool)@ == old(pool)@,
        pid != 0 ==> first_free_slot(old(pool)@, pid - 1) && final(pool)@ == old(pool)@.update(pid - 1, true),
{
    let mut i: usize = 0;
    while i < USER_PIDS_COUNT
        invariant
            pool.wf(),
            *pool == *old(pool),
            i <= USER_PIDS_COUNT,
            forall|j: int| 0 <= j < i ==> #[trigger] pool@[j],
        decreases USER_PIDS_COUNT - i,
    {
        if pool.slots[i] == 0 {
            assert(!old(pool)@[i as int]);
            let pid = (i + 1) as u16;
            pool.slots.set(i, 1);
            assert(pool@ =~= old(pool)@.update(i as int, true));
            return pid;
        }
        i += 1;
    }
    0
}

/// Return user PID `pid` to the pool; PIDs outside `1..=USER_PIDS_COUNT`
/// are ignored.
pub fn free_user_pid_slot(pool: &mut UserPidPool, pid: u16)
    requires
        old(pool).wf(),
    ensures
        final(pool).wf(),
        0 < pid <= USER_PIDS_COUNT ==> final(pool)@ == old(pool)@.update(pid - 1, false),
        !(0 < pid <= USER_PIDS_COUNT) ==> final(pool)@ == old(pool)@,
{
    if pid > 0 && (pid as usize) <= USER_PIDS_COUNT {
        pool.slots.set(pid as usize - 1, 0);
        assert(pool@ =~= old(pool)@.update(pid - 1, false));
    }
}

/// Size of an IPC message in bytes.
pub const IPC_MSG_SIZE: usize = 64;

/// Number of slots of a per-process IPC queue (one is kept free).
pub const IPC_QUEUE_CAPACITY: usize = 16;

/// A fixed-size message exchanged between processes through the kernel.
#[derive(Clone, Copy)]
pub struct IpcMessage {
    /// PID of the sending process (filled in by the kernel).
    pub src_pid: u16,
    /// Message type, interpreted by the receiver.
    pub msg_type: u16,
    /// Payload (60 bytes; the message is 64 bytes in all).
    pub data: [u8; 60],
}

impl IpcMessage {
    /// A message with the given source, type and payload.
    pub fn new(src_pid: u16, msg_type: u16, data: [u8; 60]) -> (m: Self)
        ensures
            m.src_pid == src_pid,
            m.msg_type == msg_type,
            m.data == data,
    {
        IpcMessage { src_pid, msg_type, data }
    }
}

/// Maximum number of processes.
pub const MAX_PROCESSES: usize = 8;

/// The life-cycle state of a process.
#[derive(Clone, Copy, PartialEq, Eq, Structural, Debug)]
pub enum ProcessState {
    /// Waiting to run.
    Ready,
    /// Executing.
    Running,
    /// Waiting for I/O.
    Blocked,
    /// Finished.
    Terminated,
}

/// Process identifier; 0 means "no process".
pub type Pid = u16;

/// Saved CPU registers of a process.
#[derive(Clone, Copy)]
pub struct ProcessRegisters {
    pub rax: u64,
    pub rbx: u64,
    pub rcx: u64,
    pub rdx: u64,
    pub rsi: u64,
    pub rdi: u64,
    pub rbp: u64,
    pub rsp: u64,
    pub r8: u64,
    pub r9: u64,
    pub r10: u64,
    pub r11: u64,
    pub r12: u64,
    pub r13: u64,
    pub r14: u64,
    pub r15: u64,
    /// Instruction pointer.
    pub rip: u64,
    /// Flags.
    pub rflags: u64,
}

/// Initial RFLAGS of a process: interrupts enabled (IF) plus the reserved bit 1.
pub const DEFAULT_RFLAGS: u64 = 0x202;

/// The register state of a process that has not run yet: everything zero
/// except RFLAGS, which enables interrupts.
pub open spec fn default_registers() -> ProcessRegisters {
    ProcessRegisters {
        rax: 0, rbx: 0, rcx: 0, rdx: 0, rsi: 0, rdi: 0, rbp: 0, rsp: 0,
        r8: 0, r9: 0, r10: 0, r11: 0, r12: 0, r13: 0, r14: 0, r15: 0,
        rip: 0, rflags: DEFAULT_RFLAGS,
    }
}

impl Default for ProcessRegisters {
    fn default() -> (r: Self)
        ensures
            r == default_registers(),
    {
        ProcessRegisters {
            rax: 0, rbx: 0, rcx: 0, rdx: 0, rsi: 0, rdi: 0, rbp: 0, rsp: 0,
            r8: 0, r9: 0, r10: 0, r11: 0, r12: 0, r13: 0, r14: 0, r15: 0,
            rip: 0, rflags: DEFAULT_RFLAGS,
        }
    }
}

/// A process control block.
pub struct Process {
    /// Process ID.
    pub pid: Pid,
    /// Execution state.
    pub state: ProcessState,
    /// Initial instruction pointer.
    pub entry_point: u64,
    /// Saved registers.
    pub registers: ProcessRegisters,
    /// Memory regions (code, data, stack).
    pub memory_regions: [Option<MemoryRegion>; 4],
    /// Physical address of the PML4.
    pub cr3: u64,
    /// Top of the process's kernel stack.
    pub kernel_stack_top: u64,
    /// Human-readable name.
    pub name: &'static str,
    /// IPC ring buffer.
    pub ipc_queue: [Option<IpcMessage>; 16],
    /// Next slot to read.
    pub ipc_head: usize,
    /// Next slot to write.
    pub ipc_tail: usize,
    /// Pending signals (bit N = signal N).
    pub signal_pending: u64,
    /// Registered signal handler addresses.
    pub signal_handlers: [Option<u64>; 64],
    /// Capability bitmap (bit N = capability N).
    pub capabilities: u64,
}

/// The memory regions of a new process: two 1 MiB regions from the user
/// code address and the user stack.
pub open spec fn initial_regions(r: [Option<MemoryRegion>; 4]) -> bool {
    &&& r@.len() == 4
    &&& r@[0] == Some(MemoryRegion { start: USER_VADDR_START, size: 0x100000, flags: 0 })
    &&& r@[1] == Some(MemoryRegion { start: (USER_VADDR_START + 0x100000) as u64, size: 0x100000, flags: 0 })
    &&& r@[2] == Some(MemoryRegion { start: (USER_STACK_VADDR - USER_STACK_SIZE) as u64, size: USER_STACK_SIZE, flags: 0 })
    &&& r@[3] is None
}

/// A freshly created process with the given PID, entry point and name:
/// ready, default registers, no page tables or kernel stack yet, empty IPC
/// queue, no pending signal, no handler, no capability.
pub open spec fn fresh_process(p: Process, pid: Pid, entry: u64, name: &'static str) -> bool {
    &&& p.pid == pid
    &&& p.state == ProcessState::Ready
    &&& p.entry_point == entry
    &&& p.registers == default_registers()
    &&& initial_regions(p.memory_regions)
    &&& p.cr3 == 0
    &&& p.kernel_stack_top == 0
    &&& p.name == name
    &&& p.ipc_queue@ == Seq::new(16, |i: int| None::<IpcMessage>)
    &&& p.ipc_head == 0
    &&& p.ipc_tail == 0
    &&& p.signal_pending == 0
    &&& p.signal_handlers@ == Seq::new(64, |i: int| None::<u64>)
    &&& p.capabilities == 0
}

impl Process {
    /// Create a process (see `fresh_process`).
    pub fn new(pid: Pid, entry: u64, name: &'static str) -> (p: Self)
        ensures
            fresh_process(p, pid, entry, name),
    {
        let p = Process {
            pid,
            state: ProcessState::Ready,
            entry_point: entry,
            registers: ProcessRegisters::default(),
            memory_regions: [
                Some(MemoryRegion::new(USER_VADDR_START, 0x100000, 0)),
                Some(MemoryRegion::new(USER_VADDR_START + 0x100000, 0x100000, 0)),
                Some(MemoryRegion::new(USER_STACK_VADDR - USER_STACK_SIZE, USER_STACK_SIZE, 0)),
                None,
            ],
            cr3: 0,
            kernel_stack_top: 0,
            name,
            ipc_queue: [None; 16],
            ipc_head: 0,
            ipc_tail: 0,
            signal_pending: 0,
            signal_handlers: [None; 64],
            capabilities: 0,
        };
        assert(p.ipc_queue@ =~= Seq::new(16, |i: int| None::<IpcMessage>));
        assert(p.signal_handlers@ =~= Seq::new(64, |i: int| None::<u64>));
        p
    }

    /// The IPC ring indices are in range.
    pub open spec fn ipc_wf(&self) -> bool {
        self.ipc_head < IPC_QUEUE_CAPACITY && self.ipc_tail < IPC_QUEUE_CAPACITY
    }

    /// Number of queued IPC messages.
    pub open spec fn ipc_len(&self) -> int {
        (self.ipc_tail + IPC_QUEUE_CAPACITY - self.ipc_head) % (IPC_QUEUE_CAPACITY as int)
    }

    /// The queued IPC slots, oldest first.
    pub open spec fn ipc_pending(&self) -> Seq<Option<IpcMessage>> {
        Seq::new(self.ipc_len() as nat, |i: int| self.ipc_queue@[(self.ipc_head + i) % (IPC_QUEUE_CAPACITY as int)])
    }

    /// Everything but the IPC queue is the same in `self` and `other`.
    pub open spec fn same_except_ipc(&self, other: &Process) -> bool {
        &&& self.pid == other.pid
        &&& self.state == other.state
        &&& self.entry_point == other.entry_point
        &&& self.registers == other.registers
        &&& self.memory_regions == other.memory_regions
        &&& self.cr3 == other.cr3
        &&& self.kernel_stack_top == other.kernel_stack_top
        &&& self.name == other.name
        &&& self.signal_pending == other.signal_pending
        &&& self.signal_handlers == other.signal_handlers
        &&& self.capabilities == other.capabilities
    }

    proof fn lemma_advance(h: int, i: int)
        requires
            0 <= h < IPC_QUEUE_CAPACITY,
            0 <= i < IPC_QUEUE_CAPACITY,
        ensures
            ((h + 1) % (IPC_QUEUE_CAPACITY as int) + i) % (IPC_QUEUE_CAPACITY as int) == (h + (i + 1)) % (IPC_QUEUE_CAPACITY as int),
            i + 1 < IPC_QUEUE_CAPACITY ==> (h + (i + 1)) % (IPC_QUEUE_CAPACITY as int) != h,
            (h + i) % (IPC_QUEUE_CAPACITY as int) == h ==> i == 0,
    {
    }

    proof fn lemma_ring(h: int, t: int, i: int)
        requires
            0 <= h < IPC_QUEUE_CAPACITY,
            0 <= t < IPC_QUEUE_CAPACITY,
            0 <= i < (t + IPC_QUEUE_CAPACITY - h) % (IPC_QUEUE_CAPACITY as int),
        ensures
            (h + i) % (IPC_QUEUE_CAPACITY as int) != t,
    {
    }

    /// Push a message into this process's IPC queue. Returns `false`,
    /// changing nothing, when the queue already holds
    /// `IPC_QUEUE_CAPACITY - 1` messages.
    ///
    /// This is the kernel's delivery into the queue of the receiving
    /// process, and checks no capability: interrupt forwarding delivers
    /// this way as the kernel (PID 0), which may always send. A process's
    /// own send is checked against its capabilities by
    /// `ProcessTable::ipc_send` (and the IPC_SEND system call).
    #[verifier::spinoff_prover]
    pub fn ipc_push(&mut self, msg: IpcMessage) -> (ok: bool)
        requires
            old(self).ipc_wf(),
        ensures
            final(self).ipc_wf(),
            final(self).same_except_ipc(old(self)),
            ok == (old(self).ipc_len() < IPC_QUEUE_CAPACITY - 1),
            final(self).ipc_head == old(self).ipc_head,
            ok ==> final(self).ipc_pending() == old(self).ipc_pending().push(Some(msg)),
            !ok ==> *final(self) == *old(self),
    {
        let next_tail = (self.ipc_tail + 1) % IPC_QUEUE_CAPACITY;
        if next_tail == self.ipc_head {
            return false;
        }
        let ghost before = *self;
        let tail = self.ipc_tail;
        self.ipc_queue[tail] = Some(msg);
        self.ipc_tail = next_tail;
        assert(self.ipc_len() == before.ipc_len() + 1);
        assert forall|i: int| 0 <= i < before.ipc_len() implies #[trigger] self.ipc_pending()[i] == before.ipc_pending()[i] by {
            Self::lemma_ring(before.ipc_head as int, tail as int, i);
        }
        assert(self.ipc_pending() =~= before.ipc_pending().push(Some(msg)));
        true
    }

    /// Pop the oldest slot of this process's IPC queue, or `None` when the
    /// queue is empty.
    #[verifier::spinoff_prover]
    pub fn ipc_pop(&mut self) -> (r: Option<IpcMessage>)
        requires
            old(self).ipc_wf(),
        ensures
            final(self).ipc_wf(),
            final(self).same_except_ipc(old(self)),
            old(self).ipc_len() == 0 ==> r is None && *final(self) == *old(self),
            old(self).ipc_len() > 0 ==> r == old(self).ipc_pending()[0]
                && final(self).ipc_pending() == old(self).ipc_pending().drop_first(),
    {
        if self.ipc_head == self.ipc_tail {
            return None;
        }
        let ghost before = *self;
        let head = self.ipc_head;
        let msg = self.ipc_queue[head];
        self.ipc_queue[head] = None;
        self.ipc_head = (head + 1) % IPC_QUEUE_CAPACITY;
        assert(self.ipc_len() == before.ipc_len() - 1);
        assert forall|i: int| 0 <= i < self.ipc_len() implies #[trigger] self.ipc_pending()[i] == before.ipc_pending()[i + 1] by {
            Self::lemma_advance(head as int, i);
        }
        assert(self.ipc_pending() =~= before.ipc_pending().drop_first());
        msg
    }

    /// Set up the registers for the first run: stack at the user stack top,
    /// instruction pointer at the entry point.
    pub fn init_registers(&mut self)
        ensures
            final(self).registers == (ProcessRegisters {
                rsp: USER_STACK_VADDR,
                rip: old(self).entry_point,
                rbp: USER_STACK_VADDR,
                ..old(self).registers
            }),
            *final(self) == (Process { registers: final(self).registers, ..*old(self) }),
    {
        self.registers.rsp = USER_STACK_VADDR;
        self.registers.rip = self.entry_point;
        self.registers.rbp = USER_STACK_VADDR;
    }
}

} // verus!

verus! {

/// Slot `i` of `s` holds a process with PID `pid`.
pub open spec fn holds_pid(s: Seq<Option<Process>>, i: int, pid: Pid) -> bool {
    0 <= i < s.len() && s[i] is Some && s[i]->0.pid == pid
}

/// Slot `i` is the first slot of `s` holding PID `pid`.
pub open spec fn first_with_pid(s: Seq<Option<Process>>, pid: Pid, i: int) -> bool {
    holds_pid(s, i, pid) && forall|j: int| 0 <= j < i ==> !#[trigger] holds_pid(s, j, pid)
}

/// The slot that a lookup of `pid` finds: the first one holding it.
pub open spec fn slot_of(s: Seq<Option<Process>>, pid: Pid) -> Option<int> {
    if exists|i: int| first_with_pid(s, pid, i) {
        Some(choose|i: int| first_with_pid(s, pid, i))
    } else {
        None
    }
}

/// The first slot holding a PID is unique, and there is one whenever some
/// slot holds the PID.
pub proof fn lemma_slot_of(s: Seq<Option<Process>>, pid: Pid)
    ensures
        forall|i: int| first_with_pid(s, pid, i) ==> slot_of(s, pid) == Some(i),
        slot_of(s, pid) is None <==> forall|i: int| !#[trigger] holds_pid(s, i, pid),
        slot_of(s, pid) matches Some(i) ==> first_with_pid(s, pid, i),
{
    if exists|i: int| holds_pid(s, i, pid) {
        let w = choose|i: int| holds_pid(s, i, pid);
        lemma_first_exists(s, pid, w);
    }
    if exists|i: int| first_with_pid(s, pid, i) {
        let c = choose|i: int| first_with_pid(s, pid, i);
        assert forall|i: int| first_with_pid(s, pid, i) implies i == c by {
            if i < c {
                assert(!holds_pid(s, i, pid));
            } else if c < i {
                assert(!holds_pid(s, c, pid));
            }
        }
    }
}

proof fn lemma_first_exists(s: Seq<Option<Process>>, pid: Pid, w: int)
    requires
        holds_pid(s, w, pid),
    ensures
        exists|i: int| first_with_pid(s, pid, i),
    decreases w,
{
    if forall|j: int| 0 <= j < w ==> !#[trigger] holds_pid(s, j, pid) {
        assert(first_with_pid(s, pid, w));
    } else {
        let v = choose|j: int| 0 <= j < w && #[trigger] holds_pid(s, j, pid);
        lemma_first_exists(s, pid, v);
    }
}

/// The process table with the state of process `pid` (the first slot
/// holding it) set to `st`; unchanged when no slot holds `pid`.
pub open spec fn with_state(s: Seq<Option<Process>>, pid: Pid, st: ProcessState) -> Seq<Option<Process>> {
    match slot_of(s, pid) {
        None => s,
        Some(i) => s.update(i, Some(Process { state: st, ..s[i]->0 })),
    }
}

/// The fixed-size table of processes, with the PID to assign next and the
/// PID of the process currently running (0 for none).
pub struct ProcessTable {
    processes: Vec<Option<Process>>,
    next_pid: Pid,
    current_pid: Pid,
}

impl ProcessTable {
    /// The slots of the table.
    pub closed spec fn slots(&self) -> Seq<Option<Process>> {
        self.processes@
    }

    /// The PID to assign to the next process.
    pub closed spec fn next_pid_spec(&self) -> Pid {
        self.next_pid
    }

    /// The PID of the running process (0 for none).
    pub closed spec fn current(&self) -> Pid {
        self.current_pid
    }

    /// The table has `MAX_PROCESSES` slots.
    pub closed spec fn wf(&self) -> bool {
        self.processes@.len() == MAX_PROCESSES
    }

    /// Every process has a nonzero PID below the next PID to hand out
    /// (unless PIDs are exhausted), so that no PID handed out later repeats
    /// one in the table.
    pub open spec fn pids_fresh(&self) -> bool {
        forall|i: int| 0 <= i < self.slots().len() && #[trigger] self.slots()[i] is Some ==>
            self.slots()[i]->0.pid != 0
                && (self.next_pid_spec() == 0 || self.slots()[i]->0.pid < self.next_pid_spec())
    }

    /// An empty table: no process, next PID 1, none running.
    pub fn new() -> (t: Self)
        ensures
            t.wf(),
            t.pids_fresh(),
            t.slots() == Seq::new(MAX_PROCESSES as nat, |i: int| None::<Process>),
            t.next_pid_spec() == 1,
            t.current() == 0,
    {
        let mut processes: Vec<Option<Process>> = Vec::new();
        let mut i: usize = 0;
        while i < MAX_PROCESSES
            invariant
                i <= MAX_PROCESSES,
                processes@ == Seq::new(i as nat, |k: int| None::<Process>),
            decreases MAX_PROCESSES - i,
        {
            processes.push(None);
            assert(processes@ =~= Seq::new((i + 1) as nat, |k: int| None::<Process>));
            i += 1;
        }
        ProcessTable { processes, next_pid: 1, current_pid: 0 }
    }

    /// Index of the first slot holding `pid`.
    fn find_slot(&self, pid: Pid) -> (r: Option<usize>)
        requires
            self.wf(),
        ensures
            r matches Some(i) ==> slot_of(self.slots(), pid) == Some(i as int),
            r is None ==> slot_of(self.slots(), pid) is None,
    {
        proof { lemma_slot_of(self.slots(), pid); }
        let mut i: usize = 0;
        while i < MAX_PROCESSES
            invariant
                self.wf(),
                i <= MAX_PROCESSES,
                forall|j: int| 0 <= j < i ==> !#[trigger] holds_pid(self.slots(), j, pid),
            decreases MAX_PROCESSES - i,
        {
            match &self.processes[i] {
                Some(p) => {
                    if p.pid == pid {
                        assert(first_with_pid(self.slots(), pid, i as int));
                        return Some(i);
                    }
                },
                None => {},
            }
            i += 1;
        }
        None
    }

    /// The process with PID `pid`, if any (the first slot holding it).
    pub fn get(&self, pid: Pid) -> (r: Option<&Process>)
        requires
            self.wf(),
        ensures
            match slot_of(self.slots(), pid) {
                None => r is None,
                Some(i) => r == Some(&self.slots()[i]->0),
            },
    {
        match self.find_slot(pid) {
            None => None,
            Some(i) => self.processes[i].as_ref(),
        }
    }

    /// Mutable access to the process with PID `pid`, if any.
    pub fn get_mut(&mut self, pid: Pid) -> (r: Option<&mut Process>)
        requires
            old(self).wf(),
        ensures
            match slot_of(old(self).slots(), pid) {
                None => r is None && *final(self) == *old(self),
                Some(i) => {
                    &&& r is Some
                    &&& *r->0 == old(self).slots()[i]->0
                    &&& final(self).slots() == old(self).slots().update(i, Some(*final(r->0)))
                    &&& final(self).wf()
                    &&& final(self).next_pid_spec() == old(self).next_pid_spec()
                    &&& final(self).current() == old(self).current()
                },
            },
    {
        match self.find_slot(pid) {
            None => None,
            Some(i) => self.processes[i].as_mut(),
        }
    }

    /// Set the state of process `pid` (no change when there is none).
    fn set_state(&mut self, pid: Pid, st: ProcessState)
        requires
            old(self).wf(),
        ensures
            final(self).wf(),
            final(self).slots() == with_state(old(self).slots(), pid, st),
            final(self).next_pid_spec() == old(self).next_pid_spec(),
            final(self).current() == old(self).current(),
    {
        match self.find_slot(pid) {
            None => {},
            Some(i) => {
                let mut slot = None;
                std::mem::swap(&mut slot, &mut self.processes[i]);
                match slot {
                    Some(mut p) => {
                        p.state = st;
                        self.processes.set(i, Some(p));
                    },
                    None => {
                        self.processes.set(i, None);
                    },
                }
            },
        }
    }

    /// Mark process `pid` as running.
    pub fn set_running(&mut self, pid: Pid)
        requires
            old(self).wf(),
        ensures
            final(self).wf(),
            final(self).slots() == with_state(old(self).slots(), pid, ProcessState::Running),
            final(self).next_pid_spec() == old(self).next_pid_spec(),
            final(self).current() == old(self).current(),
    {
        self.set_state(pid, ProcessState::Running);
    }

    /// Mark process `pid` as blocked.
    pub fn set_blocked(&mut self, pid: Pid)
        requires
            old(self).wf(),
        ensures
            final(self).wf(),
            final(self).slots() == with_state(old(self).slots(), pid, ProcessState::Blocked),
            final(self).next_pid_spec() == old(self).next_pid_spec(),
            final(self).current() == old(self).current(),
    {
        self.set_state(pid, ProcessState::Blocked);
    }

    /// Mark process `pid` as ready.
    pub fn set_ready(&mut self, pid: Pid)
        requires
            old(self).wf(),
        ensures
            final(self).wf(),
            final(self).slots() == with_state(old(self).slots(), pid, ProcessState::Ready),
            final(self).next_pid_spec() == old(self).next_pid_spec(),
            final(self).current() == old(self).current(),
    {
        self.set_state(pid, ProcessState::Ready);
    }

    /// Mark process `pid` as terminated.
    pub fn set_terminated(&mut self, pid: Pid)
        requires
            old(self).wf(),
        ensures
            final(self).wf(),
            final(self).slots() == with_state(old(self).slots(), pid, ProcessState::Terminated),
            final(self).next_pid_spec() == old(self).next_pid_spec(),
            final(self).current() == old(self).current(),
    {
        self.set_state(pid, ProcessState::Terminated);
    }

    /// Whether every process has its IPC ring indices in range (see
    /// `ipc_indices_ok`), as IPC delivery needs.
    pub fn ipc_indices_valid(&self) -> (r: bool)
        requires
            self.wf(),
        ensures
            r == ipc_indices_ok(self.slots()),
    {
        let mut i: usize = 0;
        while i < MAX_PROCESSES
            invariant
                self.wf(),
                i <= MAX_PROCESSES,
                forall|k: int| 0 <= k < i && #[trigger] self.slots()[k] is Some ==> self.slots()[k]->0.ipc_wf(),
            decreases MAX_PROCESSES - i,
        {
            match &self.processes[i] {
                Some(p) => {
                    if p.ipc_head >= IPC_QUEUE_CAPACITY || p.ipc_tail >= IPC_QUEUE_CAPACITY {
                        return false;
                    }
                },
                None => {},
            }
            i += 1;
        }
        true
    }
}

/// The PID of the process currently running (0 for none).
pub fn get_current_pid(table: &ProcessTable) -> (pid: Pid)
    ensures
        pid == table.current(),
{
    table.current_pid
}

/// Record `pid` as the process currently running.
pub fn set_current_pid(table: &mut ProcessTable, pid: Pid)
    ensures
        final(table).current() == pid,
        final(table).slots() == old(table).slots(),
        final(table).next_pid_spec() == old(table).next_pid_spec(),
        final(table).wf() == old(table).wf(),
{
    table.current_pid = pid;
}

} // verus!

verus! {

/// Slot `j` of `s` holds a ready process whose PID is not `cur`.
pub open spec fn ready_other(s: Seq<Option<Process>>, cur: Pid, j: int) -> bool {
    0 <= j < s.len() && s[j] is Some && s[j]->0.state == ProcessState::Ready && s[j]->0.pid != cur
}

/// Where the round-robin search starts: the slot after the one holding
/// `cur`, or slot 0 when no slot holds it.
pub open spec fn rr_start(s: Seq<Option<Process>>, cur: Pid) -> int {
    match slot_of(s, cur) {
        Some(i) => i + 1,
        None => 0,
    }
}

/// The slot looked at `j`-th by the round-robin search, wrapping around the table.
pub open spec fn rr_slot(s: Seq<Option<Process>>, cur: Pid, j: int) -> int {
    (rr_start(s, cur) + j) % (MAX_PROCESSES as int)
}

/// The `j`-th slot of the search is the first one holding a ready process
/// other than `cur`.
pub open spec fn first_ready_from(s: Seq<Option<Process>>, cur: Pid, j: int) -> bool {
    &&& 0 <= j < MAX_PROCESSES
    &&& ready_other(s, cur, rr_slot(s, cur, j))
    &&& forall|k: int| 0 <= k < j ==> !#[trigger] ready_other(s, cur, rr_slot(s, cur, k))
}

/// The table after the running process `cur` (if it is running) has been
/// put back to ready.
pub open spec fn preempted(s: Seq<Option<Process>>, cur: Pid) -> Seq<Option<Process>> {
    if cur != 0 && (slot_of(s, cur) matches Some(i) && s[i]->0.state == ProcessState::Running) {
        with_state(s, cur, ProcessState::Ready)
    } else {
        s
    }
}

/// The PID that round-robin scheduling picks after `cur`: the first ready
/// process other than `cur` in table order, starting after `cur`'s slot and
/// wrapping around (0 when there is none).
pub open spec fn next_ready_pid(s: Seq<Option<Process>>, cur: Pid) -> Pid {
    if exists|j: int| first_ready_from(s, cur, j) {
        s[rr_slot(s, cur, choose|j: int| first_ready_from(s, cur, j))]->0.pid
    } else {
        0
    }
}

/// Round-robin scheduling: the running process `cur` (if running) becomes
/// ready; the next ready process with another PID after it becomes running
/// and current. When there is none, `cur` stays current and runs on if it
/// is ready; a blocked or terminated process keeps its state.
pub open spec fn scheduled(s: Seq<Option<Process>>, cur: Pid) -> (Seq<Option<Process>>, Pid) {
    let s1 = preempted(s, cur);
    let next = next_ready_pid(s1, cur);
    if next != 0 {
        (with_state(s1, next, ProcessState::Running), next)
    } else if cur != 0 && (slot_of(s1, cur) matches Some(i) && s1[i]->0.state == ProcessState::Ready) {
        (with_state(s1, cur, ProcessState::Running), cur)
    } else {
        (s1, cur)
    }
}

proof fn lemma_first_ready_unique(s: Seq<Option<Process>>, cur: Pid, a: int, b: int)
    requires
        first_ready_from(s, cur, a),
        first_ready_from(s, cur, b),
    ensures
        a == b,
{
    if a < b {
        assert(!ready_other(s, cur, rr_slot(s, cur, a)));
    } else if b < a {
        assert(!ready_other(s, cur, rr_slot(s, cur, b)));
    }
}

/// Pick and switch to the next process (round-robin, see `scheduled`).
pub fn schedule_next(table: &mut ProcessTable)
    requires
        old(table).wf(),
    ensures
        final(table).wf(),
        (final(table).slots(), final(table).current()) == scheduled(old(table).slots(), old(table).current()),
        final(table).next_pid_spec() == old(table).next_pid_spec(),
{
    let current = get_current_pid(table);
    proof { lemma_slot_of(table.slots(), current); }
    if current != 0 {
        match table.get(current) {
            Some(p) => {
                if p.state == ProcessState::Running {
                    table.set_state(current, ProcessState::Ready);
                }
            },
            None => {},
        }
    }
    let ghost s1 = table.slots();
    assert(s1 == preempted(old(table).slots(), current));
    proof { lemma_slot_of(s1, current); }
    let start: usize = match table.find_slot(current) {
        Some(i) => i + 1,
        None => 0,
    };
    assert(start == rr_start(s1, current));
    let mut next_pid: Pid = 0;
    let mut j: usize = 0;
    while j < MAX_PROCESSES
        invariant_except_break
            table.wf(),
            table.slots() == s1,
            start == rr_start(s1, current),
            start <= MAX_PROCESSES,
            j <= MAX_PROCESSES,
            next_pid == 0,
            forall|k: int| 0 <= k < j ==> !#[trigger] ready_other(s1, current, rr_slot(s1, current, k)),
        ensures
            table.wf(),
            table.slots() == s1,
            next_pid == next_ready_pid(s1, current),
        decreases MAX_PROCESSES - j,
    {
        let idx = (start + j) % MAX_PROCESSES;
        assert(idx == rr_slot(s1, current, j as int));
        match &table.processes[idx] {
            Some(p) => {
                if p.state == ProcessState::Ready && p.pid != current {
                    next_pid = p.pid;
                    proof {
                        assert(first_ready_from(s1, current, j as int));
                        assert forall|k: int| first_ready_from(s1, current, k) implies k == j by {
                            lemma_first_ready_unique(s1, current, k, j as int);
                        }
                    }
                    break;
                }
            },
            None => {},
        }
        j += 1;
    }
    if next_pid != 0 {
        proof { lemma_slot_of(table.slots(), next_pid); }
        if table.find_slot(next_pid).is_some() {
            table.set_state(next_pid, ProcessState::Running);
            set_current_pid(table, next_pid);
        }
        proof {
            if slot_of(s1, next_pid) is None {
                let k = choose|k: int| first_ready_from(s1, current, k);
                assert(holds_pid(s1, rr_slot(s1, current, k), next_pid));
            }
        }
    } else if current != 0 {
        let ready = match table.get(current) {
            Some(p) => p.state == ProcessState::Ready,
            None => false,
        };
        if ready {
            table.set_state(current, ProcessState::Running);
        }
    }
}

/// No two processes of `s` share a PID, and none has PID 0.
pub open spec fn pids_distinct(s: Seq<Option<Process>>) -> bool {
    &&& forall|i: int| 0 <= i < s.len() && #[trigger] s[i] is Some ==> s[i]->0.pid != 0
    &&& forall|i: int, k: int| 0 <= i < s.len() && 0 <= k < s.len() && i != k && #[trigger] s[i] is Some
            && #[trigger] s[k] is Some ==> s[i]->0.pid != s[k]->0.pid
}

/// The table and current PID after `n` rounds of round-robin scheduling
/// (see `scheduled`) from `s` with `cur` current.
pub open spec fn schedule_steps(s: Seq<Option<Process>>, cur: Pid, n: nat) -> (Seq<Option<Process>>, Pid)
    decreases n,
{
    if n == 0 {
        (s, cur)
    } else {
        let (s1, c1) = scheduled(s, cur);
        schedule_steps(s1, c1, (n - 1) as nat)
    }
}

/// With distinct PIDs, a lookup finds the slot holding the PID.
proof fn lemma_slot_distinct(s: Seq<Option<Process>>, i: int)
    requires
        pids_distinct(s),
        0 <= i < s.len(),
        s[i] is Some,
    ensures
        slot_of(s, s[i]->0.pid) == Some(i),
{
    assert forall|k: int| 0 <= k < i implies !#[trigger] holds_pid(s, k, s[i]->0.pid) by {
        if s[k] is Some {
            assert(s[k]->0.pid != s[i]->0.pid);
        }
    }
    assert(first_with_pid(s, s[i]->0.pid, i));
    lemma_slot_of(s, s[i]->0.pid);
}

/// Setting the state of the process in slot `i` keeps the PIDs distinct
/// and changes that slot only.
proof fn lemma_with_state_slot(s: Seq<Option<Process>>, i: int, st: ProcessState)
    requires
        pids_distinct(s),
        0 <= i < s.len(),
        s[i] is Some,
    ensures
        with_state(s, s[i]->0.pid, st) == s.update(i, Some(Process { state: st, ..s[i]->0 })),
        pids_distinct(with_state(s, s[i]->0.pid, st)),
{
    lemma_slot_distinct(s, i);
    let s2 = with_state(s, s[i]->0.pid, st);
    assert forall|a: int, b: int| 0 <= a < s2.len() && 0 <= b < s2.len() && a != b && #[trigger] s2[a] is Some
        && #[trigger] s2[b] is Some implies s2[a]->0.pid != s2[b]->0.pid by {
        assert(s[a] is Some && s[b] is Some);
    }
}

/// Some slot of the search up to the `k0`-th is the first holding a ready
/// process other than `cur`, when the `k0`-th does.
proof fn lemma_first_ready_exists(s: Seq<Option<Process>>, cur: Pid, k0: int)
    requires
        0 <= k0 < MAX_PROCESSES,
        ready_other(s, cur, rr_slot(s, cur, k0)),
    ensures
        exists|k: int| 0 <= k <= k0 && #[trigger] first_ready_from(s, cur, k),
    decreases k0,
{
    if exists|k: int| 0 <= k < k0 && #[trigger] ready_other(s, cur, rr_slot(s, cur, k)) {
        let k = choose|k: int| 0 <= k < k0 && #[trigger] ready_other(s, cur, rr_slot(s, cur, k));
        lemma_first_ready_exists(s, cur, k);
    } else {
        assert(first_ready_from(s, cur, k0));
    }
}

/// One round from the process in slot `c` while the process in slot `j`
/// is ready: either it is picked, or the picked process's slot is nearer
/// to `j` in table order, wrapping around, and `j` is still ready.
proof fn lemma_rr_step(s: Seq<Option<Process>>, c: int, j: int)
    requires
        s.len() == MAX_PROCESSES,
        pids_distinct(s),
        0 <= c < MAX_PROCESSES,
        s[c] is Some,
        ready_other(s, s[c]->0.pid, j),
    ensures
        ({
            let (s2, nx) = scheduled(s, s[c]->0.pid);
            &&& s2.len() == MAX_PROCESSES
            &&& pids_distinct(s2)
            &&& s2[j] is Some && s2[j]->0.pid == s[j]->0.pid
            &&& exists|c2: int| 0 <= c2 < MAX_PROCESSES && #[trigger] s2[c2] is Some && s2[c2]->0.pid == nx && {
                ||| c2 == j
                ||| ready_other(s2, nx, j) && (j - c2 + 8) % 8 < (j - c + 8) % 8
            }
        }),
{
    let cur = s[c]->0.pid;
    lemma_slot_distinct(s, c);
    let s1 = preempted(s, cur);
    if s[c]->0.state == ProcessState::Running {
        lemma_with_state_slot(s, c, ProcessState::Ready);
    }
    assert(s1.len() == MAX_PROCESSES);
    assert(pids_distinct(s1));
    assert(s1[c] is Some && s1[c]->0.pid == cur);
    lemma_slot_distinct(s1, c);
    assert(j != c);
    assert(s1[j] == s[j]);
    let k0 = (j - c - 1 + 8) % 8;
    assert(rr_slot(s1, cur, k0) == j);
    lemma_first_ready_exists(s1, cur, k0);
    let ks = choose|k: int| 0 <= k <= k0 && #[trigger] first_ready_from(s1, cur, k);
    assert forall|k: int| first_ready_from(s1, cur, k) implies k == ks by {
        lemma_first_ready_unique(s1, cur, k, ks);
    }
    let c2 = rr_slot(s1, cur, ks);
    let nx = s1[c2]->0.pid;
    assert(next_ready_pid(s1, cur) == nx);
    assert(nx != 0);
    lemma_with_state_slot(s1, c2, ProcessState::Running);
    let s2 = with_state(s1, nx, ProcessState::Running);
    assert(scheduled(s, cur) == (s2, nx));
    assert(s2[c2] is Some && s2[c2]->0.pid == nx);
    if c2 != j {
        assert(ks != k0);
        assert(s2[j] == s1[j]);
        assert((j - c2 + 8) % 8 == k0 - ks);
    }
}

/// A process that exits (or is terminated by a signal) leaves the others
/// running: with distinct PIDs, after the current process is marked
/// terminated and the next one scheduled, it stays terminated, every other
/// process keeps all but its state, and only the one picked to run changes
/// state, from ready to running; whenever another process was ready, one
/// of them is picked and becomes current.
#[verifier::spinoff_prover]
pub proof fn law_exit_leaves_others(s: Seq<Option<Process>>, cur: Pid)
    requires
        s.len() == MAX_PROCESSES,
        pids_distinct(s),
        slot_of(s, cur) is Some,
    ensures
        ({
            let c = slot_of(s, cur)->0;
            let (s2, nx) = scheduled(with_state(s, cur, ProcessState::Terminated), cur);
            &&& s2.len() == MAX_PROCESSES
            &&& s2[c] == Some(Process { state: ProcessState::Terminated, ..s[c]->0 })
            &&& forall|j: int| 0 <= j < MAX_PROCESSES && j != c ==> {
                    ||| #[trigger] s2[j] == s[j]
                    ||| s[j] is Some && s[j]->0.state == ProcessState::Ready && s[j]->0.pid == nx
                        && s2[j] == Some(Process { state: ProcessState::Running, ..s[j]->0 })
                }
            &&& (exists|j: int| #[trigger] ready_other(s, cur, j)) ==> nx != cur && exists|j: int| 0 <= j < MAX_PROCESSES
                    && j != c && #[trigger] s2[j] == Some(Process { state: ProcessState::Running, ..s[j]->0 })
                    && s[j]->0.state == ProcessState::Ready && s[j]->0.pid == nx
        }),
{
    lemma_slot_of(s, cur);
    let c = slot_of(s, cur)->0;
    lemma_with_state_slot(s, c, ProcessState::Terminated);
    let s1 = with_state(s, cur, ProcessState::Terminated);
    assert(s1[c] is Some && s1[c]->0.pid == cur);
    lemma_slot_distinct(s1, c);
    assert(preempted(s1, cur) == s1);
    assert forall|j: int| #[trigger] ready_other(s1, cur, j) == ready_other(s, cur, j) by {
        if 0 <= j < s.len() && j != c {
            assert(s1[j] == s[j]);
        }
    }
    let next = next_ready_pid(s1, cur);
    if exists|j: int| #[trigger] ready_other(s, cur, j) {
        let j0 = choose|j: int| #[trigger] ready_other(s, cur, j);
        assert(ready_other(s1, cur, j0));
        let k0 = (j0 - c - 1 + 8) % 8;
        assert(rr_slot(s1, cur, k0) == j0);
        lemma_first_ready_exists(s1, cur, k0);
    }
    if next != 0 {
        let ks = choose|k: int| first_ready_from(s1, cur, k);
        let c2 = rr_slot(s1, cur, ks);
        assert(ready_other(s1, cur, c2));
        lemma_with_state_slot(s1, c2, ProcessState::Running);
        assert(c2 != c);
        let s2 = with_state(s1, next, ProcessState::Running);
        assert(scheduled(s1, cur) == (s2, next));
        assert forall|j: int| 0 <= j < MAX_PROCESSES && j != c implies {
            ||| #[trigger] s2[j] == s[j]
            ||| s[j] is Some && s[j]->0.state == ProcessState::Ready && s[j]->0.pid == next
                && s2[j] == Some(Process { state: ProcessState::Running, ..s[j]->0 })
        } by {
            assert(s1[j] == s[j]);
            if j == c2 {
                assert(s[j]->0.pid == next);
            }
        }
        assert(s1[c2] == s[c2]);
        assert(s2[c2] == Some(Process { state: ProcessState::Running, ..s[c2]->0 }));
        assert(s[c2]->0.pid == next && s[c2]->0.state == ProcessState::Ready);
        assert(scheduled(s1, cur) == (s2, next));
        assert(s2[c] == s1[c]);
        let s2p = scheduled(with_state(s, cur, ProcessState::Terminated), cur).0;
        assert(s2p == s2);
        assert forall|j: int| 0 <= j < MAX_PROCESSES && j != c implies {
            ||| #[trigger] s2p[j] == s[j]
            ||| s[j] is Some && s[j]->0.state == ProcessState::Ready && s[j]->0.pid == next
                && s2p[j] == Some(Process { state: ProcessState::Running, ..s[j]->0 })
        } by {
            assert(s2p[j] == s2[j]);
        }
        assert(0 <= c2 < MAX_PROCESSES && c2 != c && s2p[c2] == Some(Process { state: ProcessState::Running, ..s[c2]->0 })
            && s[c2]->0.state == ProcessState::Ready && s[c2]->0.pid == next);
    } else {
        if exists|k: int| first_ready_from(s1, cur, k) {
            let ks = choose|k: int| first_ready_from(s1, cur, k);
            assert(s1[rr_slot(s1, cur, ks)] is Some);
            assert(next != 0);
        }
        assert(!(exists|j: int| #[trigger] ready_other(s, cur, j)));
        assert(scheduled(s1, cur) == (s1, cur));
        assert forall|j: int| 0 <= j < MAX_PROCESSES && j != c implies #[trigger] s1[j] == s[j] by {}
    }
}

/// Round-robin scheduling is fair: with distinct PIDs, the current process
/// `cur` in the table and a ready process in slot `j`, that process becomes
/// the current one within `MAX_PROCESSES - 1` rounds of `schedule_next`
/// (as long as nothing else changes the table in between), since each
/// round moves on to the next ready slot after the current one.
pub proof fn law_round_robin_fair(s: Seq<Option<Process>>, cur: Pid, j: int)
    requires
        s.len() == MAX_PROCESSES,
        pids_distinct(s),
        slot_of(s, cur) is Some,
        ready_other(s, cur, j),
    ensures
        exists|n: nat| 1 <= n <= (j - slot_of(s, cur)->0 + 8) % 8 && n < MAX_PROCESSES
            && #[trigger] schedule_steps(s, cur, n).1 == s[j]->0.pid,
    decreases (j - slot_of(s, cur)->0 + 8) % 8,
{
    lemma_slot_of(s, cur);
    let c = slot_of(s, cur)->0;
    lemma_rr_step(s, c, j);
    let (s2, nx) = scheduled(s, cur);
    let c2 = choose|c2: int| 0 <= c2 < MAX_PROCESSES && #[trigger] s2[c2] is Some && s2[c2]->0.pid == nx && {
        ||| c2 == j
        ||| ready_other(s2, nx, j) && (j - c2 + 8) % 8 < (j - c + 8) % 8
    };
    assert(schedule_steps(s, cur, 1) == schedule_steps(s2, nx, 0));
    if c2 == j {
        assert(schedule_steps(s, cur, 1).1 == s[j]->0.pid);
    } else {
        lemma_slot_distinct(s2, c2);
        law_round_robin_fair(s2, nx, j);
        let n = choose|n: nat| 1 <= n <= (j - c2 + 8) % 8 && n < MAX_PROCESSES
            && #[trigger] schedule_steps(s2, nx, n).1 == s2[j]->0.pid;
        assert(schedule_steps(s, cur, n + 1) == schedule_steps(s2, nx, n));
        assert(schedule_steps(s, cur, (n + 1) as nat).1 == s[j]->0.pid);
    }
}


/// Where the first switch to user space goes: entry point, stack, page
/// tables and kernel stack of the process to run.
pub struct SwitchTarget {
    pub entry: u64,
    pub stack: u64,
    pub cr3: u64,
    pub kernel_stack_top: u64,
}

/// Slot `i` of `s` is the first process that is ready or running.
pub open spec fn first_runnable(s: Seq<Option<Process>>, i: int) -> bool {
    &&& runnable(s, i)
    &&& forall|k: int| 0 <= k < i ==> !#[trigger] runnable(s, k)
}

/// Slot `i` of `s` holds a process that is ready or running.
pub open spec fn runnable(s: Seq<Option<Process>>, i: int) -> bool {
    0 <= i < s.len() && s[i] is Some
        && (s[i]->0.state == ProcessState::Ready || s[i]->0.state == ProcessState::Running)
}

/// Choose the first process to run at boot: the first ready or running
/// process in table order. It is marked running and made current, and
/// its entry point, saved stack pointer, page tables and kernel stack are
/// returned for the switch to user space; `None` when no process can run.
pub fn schedule_init(table: &mut ProcessTable) -> (r: Option<SwitchTarget>)
    requires
        old(table).wf(),
    ensures
        final(table).wf(),
        final(table).next_pid_spec() == old(table).next_pid_spec(),
        (forall|i: int| !#[trigger] runnable(old(table).slots(), i)) ==> r is None && *final(table) == *old(table),
        forall|i: int| #[trigger] first_runnable(old(table).slots(), i) ==> {
            let p = old(table).slots()[i]->0;
            &&& r == Some(SwitchTarget { entry: p.entry_point, stack: p.registers.rsp, cr3: p.cr3, kernel_stack_top: p.kernel_stack_top })
            &&& final(table).slots() == with_state(old(table).slots(), p.pid, ProcessState::Running)
            &&& final(table).current() == p.pid
        },
{
    let mut i: usize = 0;
    while i < MAX_PROCESSES
        invariant
            table.wf(),
            *table == *old(table),
            i <= MAX_PROCESSES,
            forall|k: int| 0 <= k < i ==> !#[trigger] runnable(table.slots(), k),
        decreases MAX_PROCESSES - i,
    {
        match &table.processes[i] {
            Some(p) => {
                if p.state == ProcessState::Ready || p.state == ProcessState::Running {
                    let target = SwitchTarget {
                        entry: p.entry_point,
                        stack: p.registers.rsp,
                        cr3: p.cr3,
                        kernel_stack_top: p.kernel_stack_top,
                    };
                    let pid = p.pid;
                    proof {
                        assert(first_runnable(table.slots(), i as int));
                        assert forall|j: int| #[trigger] first_runnable(old(table).slots(), j) implies j == i by {
                            if j < i { assert(!runnable(table.slots(), j)); }
                            if i < j { assert(!runnable(table.slots(), i as int)); }
                        }
                    }
                    table.set_state(pid, ProcessState::Running);
                    set_current_pid(table, pid);
                    return Some(target);
                }
            },
            None => {},
        }
        i += 1;
    }
    None
}

} // verus!

verus! {

/// Why the kernel refused to deliver an IPC message.
#[derive(Clone, Copy, PartialEq, Eq, Structural, Debug)]
pub enum IpcSendError {
    /// No process has the sender's PID.
    NoSender,
    /// The sender lacks the capability that the destination requires.
    PermissionDenied,
    /// No process has the destination PID.
    NoReceiver,
    /// The receiver's queue is full.
    QueueFull,
}

/// Whether a process holding `caps` may send IPC to `dst` (see
/// `capability::check_ipc_send`).
pub open spec fn may_send(caps: u64, dst: Pid) -> bool {
    match required_send_cap(dst) {
        None => true,
        Some(c) => bit_set(caps, c),
    }
}

/// What sending IPC from `src` to `dst` in table `s` gives: the errors of
/// `ProcessTable::ipc_send` in their order, `Ok` when the message goes in.
pub open spec fn ipc_send_result(s: Seq<Option<Process>>, src: Pid, dst: Pid) -> Result<(), IpcSendError> {
    match slot_of(s, src) {
        None => Err(IpcSendError::NoSender),
        Some(i) => if !may_send(s[i]->0.capabilities, dst) {
            Err(IpcSendError::PermissionDenied)
        } else {
            match slot_of(s, dst) {
                None => Err(IpcSendError::NoReceiver),
                Some(j) => if s[j]->0.ipc_len() >= IPC_QUEUE_CAPACITY - 1 {
                    Err(IpcSendError::QueueFull)
                } else {
                    Ok(())
                },
            }
        },
    }
}

/// An IPC send goes through exactly when the sender exists, its bitmap
/// holds the bit the destination needs (none for PID 0, bit 0 for PID 1,
/// bit 1 for PID 2, bit 3 for any other PID), the destination exists and
/// its queue holds fewer than 15 messages; a sender without that bit is
/// refused with `PermissionDenied` whether or not the destination exists.
pub proof fn law_ipc_send_outcome(s: Seq<Option<Process>>, src: Pid, dst: Pid)
    ensures
        (ipc_send_result(s, src, dst) is Ok) == (slot_of(s, src) matches Some(i) && {
            let caps = s[i]->0.capabilities;
            &&& (dst == 0 || (dst == 1 && caps & 1u64 == 1u64) || (dst == 2 && (caps >> 1u64) & 1u64 == 1u64)
                    || (dst >= 3 && (caps >> 3u64) & 1u64 == 1u64))
            &&& slot_of(s, dst) matches Some(j) && s[j]->0.ipc_len() < 15
        }),
        slot_of(s, src) matches Some(i) && !may_send(s[i]->0.capabilities, dst)
            ==> ipc_send_result(s, src, dst) == Err::<(), IpcSendError>(IpcSendError::PermissionDenied),
        slot_of(s, src) is None ==> ipc_send_result(s, src, dst) == Err::<(), IpcSendError>(IpcSendError::NoSender),
{
    if let Some(i) = slot_of(s, src) {
        crate::capability::law_send_permission(s[i]->0.capabilities, dst);
    }
}

/// `s1` is `s0` after an IPC send from `src` to `dst` of a message of type
/// `msg_type` carrying `data`: unchanged on an error; otherwise the
/// receiver's queue gained that message, stamped with the sender's PID.
pub open spec fn ipc_sent(s0: Seq<Option<Process>>, s1: Seq<Option<Process>>, src: Pid, dst: Pid, msg_type: u16, data: Seq<u8>) -> bool {
    match ipc_send_result(s0, src, dst) {
        Err(_) => s1 == s0,
        Ok(_) => {
            let j = slot_of(s0, dst)->0;
            let q = s0[j]->0;
            &&& s1 == s0.update(j, s1[j])
            &&& s1[j] matches Some(p) && {
                &&& p.same_except_ipc(&q)
                &&& p.ipc_pending() == q.ipc_pending().push(p.ipc_pending().last())
                &&& p.ipc_pending().last() matches Some(m) && m.src_pid == src && m.msg_type == msg_type && m.data@ == data
            }
        },
    }
}

/// Slot `i` is the first empty slot of `s`.
pub open spec fn first_empty(s: Seq<Option<Process>>, i: int) -> bool {
    &&& 0 <= i < s.len()
    &&& s[i] is None
    &&& forall|j: int| 0 <= j < i ==> #[trigger] s[j] is Some
}

impl ProcessTable {
    /// Index of the first empty slot.
    fn free_slot(&self) -> (r: Option<usize>)
        requires
            self.wf(),
        ensures
            r matches Some(i) ==> first_empty(self.slots(), i as int),
            r is None ==> forall|j: int| 0 <= j < MAX_PROCESSES ==> #[trigger] self.slots()[j] is Some,
    {
        let mut i: usize = 0;
        while i < MAX_PROCESSES
            invariant
                self.wf(),
                i <= MAX_PROCESSES,
                forall|j: int| 0 <= j < i ==> #[trigger] self.slots()[j] is Some,
            decreases MAX_PROCESSES - i,
        {
            if self.processes[i].is_none() {
                return Some(i);
            }
            i += 1;
        }
        None
    }

    /// Deliver `msg` from process `src_pid` to process `dst_pid`, checking
    /// at the boundary that the sender holds the capability that the
    /// destination requires (`capability::check_ipc_send`). The delivered
    /// message carries the sender's PID. Nothing changes on an error.
    #[verifier::spinoff_prover]
    pub fn ipc_send(&mut self, src_pid: Pid, dst_pid: Pid, msg: IpcMessage) -> (r: Result<(), IpcSendError>)
        requires
            old(self).wf(),
            ipc_indices_ok(old(self).slots()),
        ensures
            final(self).wf(),
            ipc_indices_ok(final(self).slots()),
            final(self).next_pid_spec() == old(self).next_pid_spec(),
            final(self).current() == old(self).current(),
            r is Err ==> final(self).slots() == old(self).slots(),
            r == ipc_send_result(old(self).slots(), src_pid, dst_pid),
            ipc_sent(old(self).slots(), final(self).slots(), src_pid, dst_pid, msg.msg_type, msg.data@),
            slot_of(old(self).slots(), src_pid) is None ==> r == Err::<(), IpcSendError>(IpcSendError::NoSender),
            slot_of(old(self).slots(), src_pid) matches Some(i) ==> {
                let caps = old(self).slots()[i]->0.capabilities;
                if !may_send(caps, dst_pid) {
                    r == Err::<(), IpcSendError>(IpcSendError::PermissionDenied)
                } else {
                    match slot_of(old(self).slots(), dst_pid) {
                        None => r == Err::<(), IpcSendError>(IpcSendError::NoReceiver),
                        Some(j) => {
                            let q = old(self).slots()[j]->0;
                            if q.ipc_len() >= IPC_QUEUE_CAPACITY - 1 {
                                r == Err::<(), IpcSendError>(IpcSendError::QueueFull)
                            } else {
                                &&& r is Ok
                                &&& final(self).slots() == old(self).slots().update(j, final(self).slots()[j])
                                &&& final(self).slots()[j] matches Some(p) && p.same_except_ipc(&q)
                                    && p.ipc_pending() == q.ipc_pending().push(Some(IpcMessage { src_pid, ..msg }))
                            }
                        },
                    }
                }
            },
    {
        proof {
            lemma_slot_of(old(self).slots(), src_pid);
            lemma_slot_of(old(self).slots(), dst_pid);
        }
        let caps = match self.get(src_pid) {
            None => { return Err(IpcSendError::NoSender); },
            Some(p) => p.capabilities,
        };
        if !check_ipc_send(caps, dst_pid) {
            return Err(IpcSendError::PermissionDenied);
        }
        let delivered = IpcMessage { src_pid, msg_type: msg.msg_type, data: msg.data };
        let r = match self.get_mut(dst_pid) {
            None => Err(IpcSendError::NoReceiver),
            Some(p) => {
                if p.ipc_push(delivered) {
                    Ok(())
                } else {
                    Err(IpcSendError::QueueFull)
                }
            },
        };
        proof {
            if r is Ok {
                let j = slot_of(old(self).slots(), dst_pid)->0;
                let q = old(self).slots()[j]->0;
                let p = self.slots()[j]->0;
                assert(p.ipc_pending() == q.ipc_pending().push(Some(delivered)));
                assert(p.ipc_pending().last() == Some(delivered));
                assert(ipc_send_result(old(self).slots(), src_pid, dst_pid) is Ok);
                assert(self.slots() == old(self).slots().update(j, self.slots()[j]));
                assert(p.same_except_ipc(&q));
                assert(ipc_sent(old(self).slots(), self.slots(), src_pid, dst_pid, msg.msg_type, msg.data@));
            } else {
                assert(ipc_send_result(old(self).slots(), src_pid, dst_pid) is Err);
                assert(self.slots() == old(self).slots());
            }
        }
        r
    }
}

} // verus!

verus! {

/// Process `p` is the one that `spawn` creates with PID `pid`: a fresh
/// process (see `fresh_process`) entered at the user code address, with
/// page tables at `cr3`, its kernel stack ending at `kernel_stack_top`, and
/// its registers set up for the first run.
pub open spec fn spawned(p: Process, pid: Pid, name: &'static str, cr3: u64, kernel_stack_top: u64) -> bool {
    &&& fresh_process(Process { cr3: 0, kernel_stack_top: 0, registers: default_registers(), ..p }, pid, USER_VADDR_START, name)
    &&& p.cr3 == cr3
    &&& p.kernel_stack_top == kernel_stack_top
    &&& p.registers == (ProcessRegisters {
            rsp: USER_STACK_VADDR,
            rip: USER_VADDR_START,
            rbp: USER_STACK_VADDR,
            ..default_registers()
        })
}

impl ProcessTable {
    /// Create a process running `code` (one page, copied into a frame of
    /// its own mapped at the user code address) under the next PID, in the
    /// first empty slot: take the code frame, build its address space
    /// (`create_address_space`), take a frame for its kernel stack, and
    /// set it up (see `spawned`). `None` when PIDs are exhausted (the next
    /// PID is 0), changing nothing, or when no slot is empty, in which case
    /// only the next PID has advanced.
    ///
    /// When at least six frames are free, the address space has the layout
    /// of `address_space_layout` with the lowest free frame as the code
    /// frame, and the kernel stack is a frame that was free.
    #[verifier::spinoff_prover]
    #[verifier::rlimit(100)]
    pub fn spawn(&mut self, mem: &mut PhysicalMemory, code: &[u8], name: &'static str) -> (r: Option<Pid>)
        requires
            old(self).wf(),
            old(mem).wf(),
            code@.len() == PAGE_SIZE,
        ensures
            final(self).wf(),
            final(mem).wf(),
            final(self).current() == old(self).current(),
            forall|j: int| #[trigger] final(mem).is_free(j) ==> old(mem).is_free(j),
            old(self).next_pid_spec() == 0 ==> r is None && *final(self) == *old(self) && *final(mem) == *old(mem),
            old(self).next_pid_spec() != 0 ==> final(self).next_pid_spec()
                == if old(self).next_pid_spec() == u16::MAX { 0 } else { (old(self).next_pid_spec() + 1) as u16 },
            old(self).next_pid_spec() != 0 && (forall|j: int| 0 <= j < MAX_PROCESSES ==> #[trigger] old(self).slots()[j] is Some) ==> {
                &&& r is None
                &&& final(self).slots() == old(self).slots()
                &&& *final(mem) == *old(mem)
            },
            old(self).pids_fresh() ==> final(self).pids_fresh(),
            forall|i: int| old(self).next_pid_spec() != 0 && #[trigger] first_empty(old(self).slots(), i) ==> {
                &&& r == Some(old(self).next_pid_spec())
                &&& old(self).pids_fresh() ==> forall|j: int| 0 <= j < MAX_PROCESSES && j != i
                        && #[trigger] final(self).slots()[j] is Some ==> final(self).slots()[j]->0.pid != old(self).next_pid_spec()
                &&& final(self).slots() == old(self).slots().update(i, final(self).slots()[i])
                &&& final(self).slots()[i] matches Some(p) && {
                    &&& spawned(p, old(self).next_pid_spec(), name, p.cr3, p.kernel_stack_top)
                    &&& p.cr3 % 4096 == 0
                    &&& old(mem).free_count() >= 6 ==> {
                        let ks = (p.kernel_stack_top - 4096) as u64;
                        &&& forall|k: int| #[trigger] old(mem).lowest_free(k) ==>
                                address_space_layout(final(mem), p.cr3, spec_frame_addr(k) as u64)
                        &&& forall|k: int, j: int| #![trigger old(mem).lowest_free(k), final(mem).byte(spec_frame_addr(k) + j)]
                                old(mem).lowest_free(k) && 0 <= j < PAGE_SIZE ==> final(mem).byte(spec_frame_addr(k) + j) == code@[j]
                        &&& PHYS_MEM_START <= ks < PHYS_MEM_END && ks % 4096 == 0
                        &&& old(mem).is_free(spec_frame_idx(ks as int))
                        &&& !final(mem).is_free(spec_frame_idx(ks as int))
                        &&& final(mem).free_count() + 6 == old(mem).free_count()
                        &&& PHYS_MEM_START <= p.cr3 < PHYS_MEM_END
                        &&& space_tables_in_use(final(mem), p.cr3)
                        &&& only_free_frames_changed(old(mem), final(mem))
                    }
                }
            },
    {
        if self.next_pid == 0 {
            return None;
        }
        let pid = self.next_pid;
        self.next_pid = if self.next_pid == u16::MAX { 0 } else { self.next_pid + 1 };
        let slot = match self.free_slot() {
            Some(i) => i,
            None => { return None; },
        };
        proof {
            assert(old(self).slots()[slot as int] is None);
            assert forall|i: int| first_empty(old(self).slots(), i) implies i == slot by {
                if i < slot { assert(old(self).slots()[i] is Some); }
                if slot < i { assert(old(self).slots()[slot as int] is Some); }
            }
        }
        let ghost m0 = *mem;
        let code_frame = mem.alloc_frame();
        let ghost m1 = *mem;
        mem.write_bytes(code_frame, code);
        let ghost m2 = *mem;
        let cr3 = create_address_space(mem, code_frame);
        let ghost m3 = *mem;
        let kstack = mem.alloc_frame();
        let kernel_stack_top = kstack + 4096;
        let mut p = Process::new(pid, USER_VADDR_START, name);
        p.cr3 = cr3;
        p.kernel_stack_top = kernel_stack_top;
        p.init_registers();
        proof {
            PhysicalMemory::lemma_free_count_same(&m2, &m1);
            if m0.free_count() >= 6 {
                let k0 = spec_frame_idx(code_frame as int);
                let k5 = spec_frame_idx(kstack as int);
                lemma_lowest_free_unique(&m0, k0);
                lemma_layout_kept(&m3, mem, cr3, code_frame, k5);
                assert(code_frame / 8 == spec_frame_addr(k0) / 8);
                assert(kstack / 8 == spec_frame_addr(k5) / 8);
                assert forall|j: int| 0 <= j < PAGE_SIZE implies #[trigger] mem.byte(code_frame + j) == code@[j] by {
                    let w = (code_frame + j) / 8;
                    assert(word_frame(w) == k0);
                    assert(m2.byte(code_frame + j) == code@[j]);
                    assert(m3.word(w) == m2.word(w));
                    assert(mem.word(w) == m3.word(w));
                }
                assert forall|w: int| #[trigger] mem.word(w) != m0.word(w) implies m0.is_free(word_frame(w)) by {
                    if mem.word(w) != m3.word(w) {
                        assert(spec_frame_addr(k5) / 8 <= w < spec_frame_addr(k5) / 8 + 512);
                        assert(word_frame(w) == k5);
                    } else if m3.word(w) != m2.word(w) {
                        assert(m2.is_free(word_frame(w)));
                    } else if m2.word(w) != m1.word(w) {
                        assert(code_frame / 8 <= w < code_frame / 8 + 512);
                        assert(word_frame(w) == k0);
                    } else {
                        assert(spec_frame_addr(k0) / 8 <= w < spec_frame_addr(k0) / 8 + 512);
                        assert(word_frame(w) == k0);
                    }
                }
                assert(space_tables_in_use(mem, cr3)) by {
                    assert forall|j: int| #[trigger] mem.is_free(j) implies m3.is_free(j) by {}
                    assert forall|w: int| #[trigger] mem.word(w) != m3.word(w) implies m3.is_free(word_frame(w)) by {
                        assert(spec_frame_addr(k5) / 8 <= w < spec_frame_addr(k5) / 8 + 512);
                        assert(word_frame(w) == k5);
                    }
                    lemma_space_kept(&m3, mem, cr3, code_frame);
                }
            }
        }
        self.processes.set(slot, Some(p));
        Some(pid)
    }
}

} // verus!

verus! {

/// Process `c` is the child that `fork_process` makes of `parent` with PID
/// `pid`: a fresh process with the parent's entry point and name, the
/// parent's registers but for RAX (0, fork's result in the child), page
/// tables at `cr3` and its kernel stack ending at `kernel_stack_top`.
pub open spec fn forked(c: Process, parent: Process, pid: Pid, cr3: u64, kernel_stack_top: u64) -> bool {
    &&& fresh_process(Process { cr3: 0, kernel_stack_top: 0, registers: default_registers(), ..c },
            pid, parent.entry_point, parent.name)
    &&& c.registers == (ProcessRegisters { rax: 0, ..parent.registers })
    &&& c.cr3 == cr3
    &&& c.kernel_stack_top == kernel_stack_top
}

impl ProcessTable {
    /// Fork process `parent_pid`: the child (see `forked`) takes the next
    /// PID and the first empty slot, a frame for its kernel stack and a
    /// copy-on-write copy of the parent's page tables
    /// (`paging::copy_page_table_cow`). `None` when there is no such
    /// parent (nothing changes), when PIDs are exhausted (the next PID is
    /// 0; nothing changes), when the PID counter wraps to 0 or no slot
    /// is empty (only the PID counter has advanced), or when no frame is
    /// free for the kernel stack.
    ///
    /// With more free frames at the start than one for the kernel stack
    /// and one for each table of the parent's tree (`tree_tables`), every
    /// table of which is in use, memory is not exhausted at the end and
    /// exactly that many frames were taken.
    ///
    /// When memory is not exhausted at the end, RAM changed only in frames
    /// that were free and by entries being marked COW; whenever every table
    /// of the parent's tree was in use, the parent's tree is marked
    /// copy-on-write and the child's page tables are its copy.
    pub fn fork_process(&mut self, mem: &mut PhysicalMemory, parent_pid: Pid) -> (r: Option<Pid>)
        requires
            old(self).wf(),
            old(mem).wf(),
            slot_of(old(self).slots(), parent_pid) matches Some(i) ==> old(self).slots()[i]->0.cr3 % 4096 == 0,
        ensures
            final(self).wf(),
            final(mem).wf(),
            final(self).current() == old(self).current(),
            forall|j: int| #[trigger] final(mem).is_free(j) ==> old(mem).is_free(j),
            r is None ==> final(self).slots() == old(self).slots() && *final(mem) == *old(mem),
            slot_of(old(self).slots(), parent_pid) is None ==> r is None && *final(self) == *old(self),
            slot_of(old(self).slots(), parent_pid) is Some ==> final(self).next_pid_spec()
                == if old(self).next_pid_spec() == u16::MAX || old(self).next_pid_spec() == 0 { 0 }
                    else { (old(self).next_pid_spec() + 1) as u16 },
            old(self).next_pid_spec() == u16::MAX || old(self).next_pid_spec() == 0 ==> r is None,
            (forall|j: int| 0 <= j < MAX_PROCESSES ==> #[trigger] old(self).slots()[j] is Some) ==> r is None,
            old(mem).exhausted() ==> r is None,
            old(self).pids_fresh() ==> final(self).pids_fresh(),
            r matches Some(c) ==> old(self).pids_fresh() ==> forall|j: int| 0 <= j < MAX_PROCESSES
                && #[trigger] old(self).slots()[j] is Some ==> old(self).slots()[j]->0.pid != c,
            forall|i: int| #[trigger] first_empty(old(self).slots(), i) ==> (slot_of(old(self).slots(), parent_pid) matches Some(pi) && {
                let parent = old(self).slots()[pi]->0;
                old(self).next_pid_spec() != u16::MAX && old(self).next_pid_spec() != 0 && !old(mem).exhausted() ==> {
                    &&& r == Some(old(self).next_pid_spec())
                    &&& final(self).slots() == old(self).slots().update(i, final(self).slots()[i])
                    &&& final(self).slots()[i] matches Some(c) && {
                        let ks = (c.kernel_stack_top - 4096) as u64;
                        &&& forked(c, parent, old(self).next_pid_spec(), c.cr3, c.kernel_stack_top)
                        &&& old(mem).lowest_free(spec_frame_idx(ks as int))
                        &&& ks == spec_frame_addr(spec_frame_idx(ks as int))
                        &&& !final(mem).is_free(spec_frame_idx(ks as int))
                        &&& old(mem).free_count() > 1 + tree_tables(old(mem), parent.cr3) && src_tree_ok(old(mem), parent.cr3) ==> {
                            &&& !final(mem).exhausted()
                            &&& final(mem).free_count() + 1 + tree_tables(old(mem), parent.cr3) == old(mem).free_count()
                        }
                        &&& !final(mem).exhausted() ==> {
                            &&& forall|w: int| #[trigger] final(mem).word(w) != old(mem).word(w) ==> old(mem).is_free(word_frame(w))
                                    || (is_present(old(mem).word(w)) && final(mem).word(w) == cow_entry(old(mem).word(w)))
                            &&& src_tree_ok(old(mem), parent.cr3) ==> {
                                &&& pml4_marked(old(mem), final(mem), parent.cr3, 512)
                                &&& pml4_copied(final(mem), final(mem), parent.cr3, c.cr3)
                            }
                        }
                    }
                }
            }) || slot_of(old(self).slots(), parent_pid) is None,
    {
        proof { lemma_slot_of(old(self).slots(), parent_pid); }
        let (parent_entry, parent_name, parent_cr3, parent_regs) = match self.get(parent_pid) {
            None => { return None; },
            Some(p) => (p.entry_point, p.name, p.cr3, p.registers),
        };
        if self.next_pid == 0 {
            return None;
        }
        let child_pid = self.next_pid;
        self.next_pid = if self.next_pid == u16::MAX { 0 } else { self.next_pid + 1 };
        proof {
            if old(self).pids_fresh() {
                assert forall|i: int| 0 <= i < self.slots().len() && #[trigger] self.slots()[i] is Some implies
                    self.slots()[i]->0.pid != 0
                        && (self.next_pid_spec() == 0 || self.slots()[i]->0.pid < self.next_pid_spec()) by {
                    assert(old(self).slots()[i] is Some);
                }
            }
        }
        if self.next_pid == 0 {
            return None;
        }
        let slot = match self.free_slot() {
            Some(i) => i,
            None => { return None; },
        };
        proof {
            assert(old(self).slots()[slot as int] is None);
            assert forall|i: int| first_empty(old(self).slots(), i) implies i == slot by {
                if i < slot { assert(old(self).slots()[i] is Some); }
                if slot < i { assert(old(self).slots()[slot as int] is Some); }
            }
        }
        let ghost m0 = *mem;
        let kstack = mem.alloc_frame();
        if kstack == 0 {
            return None;
        }
        let ghost m1 = *mem;
        let kernel_stack_top = kstack + 4096;
        proof {
            let k = spec_frame_idx(kstack as int);
            assert(kstack / 8 == spec_frame_addr(k) / 8);
            assert(only_free_changed(&m0, &m1)) by {
                assert forall|w: int| #[trigger] m1.word(w) != m0.word(w) implies m0.is_free(word_frame(w)) by {
                    assert(word_frame(w) == k);
                }
            }
        }
        proof {
            if src_tree_ok(&m0, parent_cr3) {
                lemma_tree_same(&m0, &m1, parent_cr3);
                lemma_same_tree_tables(&m0, &m1, parent_cr3);
            }
        }
        let child_cr3 = copy_page_table_cow(mem, parent_cr3);
        let mut child = Process::new(child_pid, parent_entry, parent_name);
        child.registers = parent_regs;
        child.cr3 = child_cr3;
        child.kernel_stack_top = kernel_stack_top;
        child.state = ProcessState::Ready;
        child.registers.rax = 0;
        proof {
            if !mem.exhausted() {
                let k = spec_frame_idx(kstack as int);
                assert(kstack / 8 == spec_frame_addr(k) / 8);
                assert(only_free_changed(&m0, &m1)) by {
                    assert forall|w: int| #[trigger] m1.word(w) != m0.word(w) implies m0.is_free(word_frame(w)) by {
                        assert(word_frame(w) == k);
                    }
                }
                assert forall|w: int| #[trigger] mem.word(w) != m0.word(w) implies m0.is_free(word_frame(w))
                    || (is_present(m0.word(w)) && mem.word(w) == cow_entry(m0.word(w))) by {
                    if m1.word(w) != m0.word(w) {
                        assert(m0.is_free(word_frame(w)));
                    } else if mem.word(w) != m1.word(w) {
                        if m1.is_free(word_frame(w)) {
                            assert(m0.is_free(word_frame(w)));
                        }
                    }
                }
                if src_tree_ok(&m0, parent_cr3) {
                    lemma_tree_same(&m0, &m1, parent_cr3);
                    lemma_marked_same_source(&m0, &m1, mem, parent_cr3);
                }
            }
        }
        self.processes.set(slot, Some(child));
        proof {
            if old(self).pids_fresh() {
                assert forall|i: int| 0 <= i < self.slots().len() && #[trigger] self.slots()[i] is Some implies
                    self.slots()[i]->0.pid != 0
                        && (self.next_pid_spec() == 0 || self.slots()[i]->0.pid < self.next_pid_spec()) by {
                    if i != slot {
                        assert(old(self).slots()[i] is Some);
                    }
                }
            }
        }
        Some(child_pid)
    }
}

} // verus!

verus! {

/// Process `p` after its image was replaced to start at `entry` with the
/// stack at `stack_top`: default registers but for the stack and
/// instruction pointers, everything else kept.
pub open spec fn restarted(p: Process, entry: u64, stack_top: u64) -> Process {
    Process {
        entry_point: entry,
        registers: ProcessRegisters { rsp: stack_top, rip: entry, ..default_registers() },
        ..p
    }
}

/// Memory `m2` after the image of the address space rooted at `cr3` was
/// replaced by the one-page program `code`, through `mid`: the user pages of
/// the 1 MiB from the code address were unmapped (see `unmapped_from`), then,
/// on success, the code page was loaded writable at the code address (see
/// `page_loaded`); on failure no frame was free after the unmapping and
/// nothing more changed.
pub open spec fn exec_image_replaced(m0: PhysicalMemory, mid: PhysicalMemory, m2: PhysicalMemory, cr3: u64, code: Seq<u8>, ok: bool) -> bool {
    &&& unmapped_from(m0, mid, cr3, USER_VADDR_LOAD, 0x100000)
    &&& ok ==> page_loaded(mid, m2, cr3, code, USER_VADDR_LOAD, USER_VADDR_LOAD, 0, PAGE_SIZE as u64, true)
    &&& !ok ==> m2 == mid && mid.exhausted()
}

impl ProcessTable {
    /// Replace the image of process `pid` by the built-in program `code`
    /// (one page): unmap its user pages from the code address on
    /// (`munmap_range` over 1 MiB), copy `code` into a frame taken from the
    /// allocator and map it at the code address with user flags, then
    /// restart the process at `entry` on the user stack under the new
    /// `name`. `false` when there is no such process (nothing changes) or no
    /// frame is free after the unmapping (the process is kept, its pages
    /// unmapped).
    pub fn exec_builtin(&mut self, mem: &mut PhysicalMemory, pid: Pid, code: &[u8], entry: u64, name: &'static str) -> (r: bool)
        requires
            old(self).wf(),
            old(mem).wf(),
            code@.len() == PAGE_SIZE,
            slot_of(old(self).slots(), pid) matches Some(i) ==> old(self).slots()[i]->0.cr3 % 4096 == 0,
        ensures
            final(self).wf(),
            final(mem).wf(),
            final(self).next_pid_spec() == old(self).next_pid_spec(),
            final(self).current() == old(self).current(),
            slot_of(old(self).slots(), pid) is None ==> !r && *final(self) == *old(self) && *final(mem) == *old(mem),
            !r ==> final(self).slots() == old(self).slots(),
            slot_of(old(self).slots(), pid) is Some && !old(mem).exhausted() ==> r,
            r ==> (slot_of(old(self).slots(), pid) matches Some(i) && final(self).slots() == old(self).slots().update(i,
                Some(Process { name, ..restarted(old(self).slots()[i]->0, entry, USER_STACK_VADDR) }))),
            slot_of(old(self).slots(), pid) matches Some(i) ==> exists|mid: PhysicalMemory|
                exec_image_replaced(*old(mem), mid, *final(mem), old(self).slots()[i]->0.cr3, code@, r),
    {
        proof { lemma_slot_of(old(self).slots(), pid); }
        let i = match self.find_slot(pid) {
            None => { return false; },
            Some(i) => i,
        };
        let cr3 = match &self.processes[i] {
            Some(p) => p.cr3,
            None => { return false; },
        };
        let ghost m0 = *mem;
        munmap_range(mem, cr3, USER_VADDR_LOAD, 0x100000);
        let ghost m1 = *mem;
        let loaded = load_page(mem, cr3, code, USER_VADDR_LOAD, USER_VADDR_LOAD, 0, PAGE_SIZE as u64, true);
        if !loaded {
            proof {
                if !m0.exhausted() {
                    let k = choose|k: int| 0 <= k < NUM_FRAMES && #[trigger] m0.is_free(k);
                    assert(m1.is_free(k));
                }
                assert(exec_image_replaced(m0, m1, *mem, cr3, code@, false));
            }
            return false;
        }
        assert(exec_image_replaced(m0, m1, *mem, cr3, code@, true));
        let mut slot = None;
        std::mem::swap(&mut slot, &mut self.processes[i]);
        match slot {
            Some(mut q) => {
                q.entry_point = entry;
                q.registers = ProcessRegisters::default();
                q.registers.rsp = USER_STACK_VADDR;
                q.registers.rip = entry;
                q.name = name;
                self.processes.set(i, Some(q));
            },
            None => {
                self.processes.set(i, None);
            },
        }
        true
    }
}

} // verus!

verus! {

/// Largest image that `load_elf_into_process` reads (64 KiB).
pub const ELF_READ_MAX: usize = 65536;

/// The bytes of a file that the loader reads: at most `ELF_READ_MAX`.
pub open spec fn elf_window(d: Seq<u8>) -> Seq<u8> {
    d.take(if d.len() < ELF_READ_MAX { d.len() as int } else { ELF_READ_MAX as int })
}

/// The image that `load_elf_into_process` reads for `name`: the window of
/// the file that `name` finds, if any.
pub open spec fn file_image(dir: Seq<DirEntry>, name: Seq<u8>) -> Option<Seq<u8>> {
    match spec_find_file(dir, name) {
        None => None,
        Some(i) => match dir[i].data {
            None => None,
            Some(d) => Some(elf_window(d@)),
        },
    }
}

impl ProcessTable {
    /// Replace the image of process `pid` by the ELF executable `path` of
    /// the filesystem: open it as `pid`, read its first `ELF_READ_MAX`
    /// bytes, close it, load them into the process's address space
    /// (`elf::load_elf`) and restart the process at the image's entry point
    /// on the returned stack. `false`, with the process unchanged, when the
    /// file cannot be opened, there is no such process, or loading fails.
    ///
    /// It succeeds whenever the file exists, `pid` has a free descriptor and
    /// a process, the image's header is valid, and four frames per page of
    /// its segments are free. The descriptors are as before. On success the
    /// image was loaded as `load_elf` says, and where it fits the process's
    /// address space (`image::image_fits`) every page of it is in place.
    pub fn load_elf_into_process(&mut self, fs: &mut FileSystem, mem: &mut PhysicalMemory, pid: Pid, path: &str) -> (r: bool)
        requires
            old(self).wf(),
            old(fs).wf(),
            old(mem).wf(),
            slot_of(old(self).slots(), pid) matches Some(i) ==> old(self).slots()[i]->0.cr3 % 4096 == 0,
            forall|k: int| 0 <= k < old(fs).dir().len() && (#[trigger] old(fs).dir()[k]).data is Some ==> {
                let d = elf_window(old(fs).dir()[k].data->0@);
                header_error(d) is None ==> segments_fit(d)
            },
        ensures
            final(self).wf(),
            final(fs).wf(),
            final(mem).wf(),
            final(fs).dir() == old(fs).dir(),
            forall|p: int, f: int| 0 <= p < MAX_PROCESSES && 0 <= f < MAX_FDS ==>
                (#[trigger] final(fs).fd(p, f)).file_id == old(fs).fd(p, f).file_id,
            final(self).next_pid_spec() == old(self).next_pid_spec(),
            final(self).current() == old(self).current(),
            forall|j: int| #[trigger] final(mem).is_free(j) ==> old(mem).is_free(j),
            !r ==> final(self).slots() == old(self).slots(),
            r ==> {
                &&& pid < MAX_PROCESSES
                &&& file_image(old(fs).dir(), path.spec_bytes()) matches Some(img)
                &&& header_error(img) is None
                &&& slot_of(old(self).slots(), pid) matches Some(i)
                &&& final(self).slots() == old(self).slots().update(i,
                        Some(restarted(old(self).slots()[i]->0, elf_entry(img), USER_STACK_VADDR)))
                &&& exists|states: Seq<PhysicalMemory>|
                        image_loaded(img, old(self).slots()[i]->0.cr3, *old(mem), *final(mem), states)
                &&& image_fits(img, old(mem), old(self).slots()[i]->0.cr3) && old(mem).free_count() >= 4 * total_pages(img) ==>
                        forall|k: int, p: int| #[trigger] is_seg_page(img, k, p)
                            ==> page_in_place(final(mem), old(self).slots()[i]->0.cr3, img, k, p)
            },
            ({
                &&& pid < MAX_PROCESSES
                &&& file_image(old(fs).dir(), path.spec_bytes()) matches Some(img)
                &&& exists|f: int| 0 <= f < MAX_FDS && (#[trigger] old(fs).fd(pid as int, f)).file_id is None
                &&& slot_of(old(self).slots(), pid) is Some
                &&& header_error(img) is None
                &&& old(mem).free_count() >= 4 * total_pages(img)
            }) ==> r,
    {
        proof { lemma_slot_of(old(self).slots(), pid); }
        let fd = match fs.open(pid, path) {
            Some(fd) => fd,
            None => { return false; },
        };
        let ghost fs1 = *fs;
        let ghost id = spec_find_file(old(fs).dir(), path.spec_bytes())->0;
        proof {
            lemma_find_file(old(fs).dir(), path.spec_bytes());
            old(fs).lemma_dir_len();
            assert(fs1.open_data(pid as int, fd as int) == Some(old(fs).dir()[id].data->0@));
        }
        let size = match fs.file_size(pid, fd) {
            Some(s) => s,
            None => {
                fs.close(pid, fd);
                return false;
            },
        };
        let max_size = if size < ELF_READ_MAX { size } else { ELF_READ_MAX };
        let mut buf = vec![0u8; max_size];
        assert(buf@.len() == max_size);
        let ghost fs2 = *fs;
        assert(fs2.open_data(pid as int, fd as int) == Some(old(fs).dir()[id].data->0@));
        let n = match fs.read_all(pid, fd, buf.as_mut_slice()) {
            Some(n) => n,
            None => {
                fs.close(pid, fd);
                return false;
            },
        };
        fs.close(pid, fd);
        let i = match self.find_slot(pid) {
            None => { return false; },
            Some(i) => i,
        };
        let cr3 = match &self.processes[i] {
            Some(p) => p.cr3,
            None => { return false; },
        };
        let data = slice_subrange(buf.as_slice(), 0, n);
        proof {
            let d = old(fs).dir()[id].data->0@;
            assert(size == d.len());
            assert(buf@.len() == max_size);
            assert(n == max_size);
            assert(data@ =~= elf_window(d));
        }
        let result = match load_elf(data, mem, cr3) {
            Ok(res) => res,
            Err(_) => { return false; },
        };
        let mut slot = None;
        std::mem::swap(&mut slot, &mut self.processes[i]);
        match slot {
            Some(mut q) => {
                q.entry_point = result.entry;
                q.registers = ProcessRegisters::default();
                q.registers.rsp = result.stack_top;
                q.registers.rip = result.entry;
                self.processes.set(i, Some(q));
            },
            None => {
                self.processes.set(i, None);
            },
        }
        true
    }
}

} // verus!
