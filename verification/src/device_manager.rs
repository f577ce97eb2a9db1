//! The device manager: the kernel's facade over the display service. It
//! turns display requests into messages on the system IPC queue.

use vstd::prelude::*;
use vstd::string::StringSliceAdditionalSpecFns;
use crate::ipc::{Message, MessageQueue, MAX_MESSAGES};

verus! {

/// Coordinates hardware access through IPC messages to the services.
pub struct DeviceManager {
    /// The software cursor position.
    pub current_cursor: usize,
    /// The system IPC queue that the services read.
    pub ipc_queue: MessageQueue,
}

/// The messages queued by printing `bytes` on a queue holding `q`: one
/// `VgaPrint` per byte, for as many bytes as there is room for.
pub open spec fn queued_prints(q: Seq<Message>, bytes: Seq<u8>) -> Seq<Message> {
    let room = (MAX_MESSAGES - 1) - q.len();
    let n = if bytes.len() <= room { bytes.len() as int } else { room };
    q + bytes.take(n).map_values(|b: u8| Message::VgaPrint(b))
}

impl DeviceManager {
    /// The IPC queue is well formed.
    pub open spec fn wf(&self) -> bool {
        self.ipc_queue.wf()
    }

    /// A device manager with the cursor at 0 and an empty queue.
    pub fn new() -> (dm: Self)
        ensures
            dm.wf(),
            dm.current_cursor == 0,
            dm.ipc_queue@ == Seq::<Message>::empty(),
    {
        DeviceManager { current_cursor: 0, ipc_queue: MessageQueue::new() }
    }

    /// Send a message to the system IPC queue.
    fn send_ipc(&mut self, msg: Message) -> (ok: bool)
        requires
            old(self).wf(),
        ensures
            final(self).wf(),
            final(self).current_cursor == old(self).current_cursor,
            ok == !old(self).ipc_queue.is_full(),
            ok ==> final(self).ipc_queue@ == old(self).ipc_queue@.push(msg),
            !ok ==> final(self).ipc_queue@ == old(self).ipc_queue@,
    {
        self.ipc_queue.send(msg)
    }

    /// Ask the display service to clear the screen and reset the cursor.
    pub fn initialize_vga(&mut self)
        requires
            old(self).wf(),
        ensures
            final(self).wf(),
            final(self).current_cursor == 0,
            !old(self).ipc_queue.is_full() ==> final(self).ipc_queue@ == old(self).ipc_queue@.push(Message::VgaClear),
            old(self).ipc_queue.is_full() ==> final(self).ipc_queue@ == old(self).ipc_queue@,
    {
        let _ = self.send_ipc(Message::VgaClear);
        self.current_cursor = 0;
    }

    /// Queue one character for display; `false` when the queue is full.
    pub fn write_char(&mut self, byte: u8) -> (ok: bool)
        requires
            old(self).wf(),
        ensures
            final(self).wf(),
            final(self).current_cursor == old(self).current_cursor,
            ok == !old(self).ipc_queue.is_full(),
            ok ==> final(self).ipc_queue@ == old(self).ipc_queue@.push(Message::VgaPrint(byte)),
            !ok ==> final(self).ipc_queue@ == old(self).ipc_queue@,
    {
        self.send_ipc(Message::VgaPrint(byte))
    }

    /// Queue every byte of `s` for display, one message per byte; bytes for
    /// which the queue has no room are dropped.
    pub fn print_string(&mut self, s: &str)
        requires
            old(self).wf(),
        ensures
            final(self).wf(),
            final(self).current_cursor == old(self).current_cursor,
            final(self).ipc_queue@ == queued_prints(old(self).ipc_queue@, s.spec_bytes()),
    {
        let bytes = s.as_bytes();
        let mut i: usize = 0;
        proof {
            self.ipc_queue.lemma_len_bound();
            let q0 = self.ipc_queue@;
            assert(bytes@.take(0).take(0).map_values(|b: u8| Message::VgaPrint(b)) =~= Seq::<Message>::empty());
            assert(queued_prints(q0, bytes@.take(0)) =~= q0);
        }
        while i < bytes.len()
            invariant
                self.wf(),
                old(self).wf(),
                self.current_cursor == old(self).current_cursor,
                bytes@ == s.spec_bytes(),
                i <= bytes@.len(),
                self.ipc_queue@ == queued_prints(old(self).ipc_queue@, bytes@.take(i as int)),
            decreases bytes@.len() - i,
        {
            let ghost before = self.ipc_queue@;
            proof { old(self).ipc_queue.lemma_len_bound(); }
            let _ = self.write_char(bytes[i]);
            proof {
                let q0 = old(self).ipc_queue@;
                let room = (MAX_MESSAGES - 1) - q0.len();
                let t1 = bytes@.take(i as int);
                let t2 = bytes@.take(i + 1);
                assert(t2 =~= t1.push(bytes@[i as int]));
                if i < room {
                    assert(t2.take(i + 1) =~= t2);
                    assert(t1.take(i as int) =~= t1);
                    assert(t2.map_values(|b: u8| Message::VgaPrint(b)) =~= t1.map_values(|b: u8| Message::VgaPrint(b)).push(Message::VgaPrint(bytes@[i as int])));
                    assert(self.ipc_queue@ =~= queued_prints(q0, t2));
                } else {
                    assert(before.len() == MAX_MESSAGES - 1);
                    assert(t2.take(room) =~= t1.take(room));
                    assert(self.ipc_queue@ =~= queued_prints(q0, t2));
                }
            }
            i += 1;
        }
        assert(bytes@.take(bytes@.len() as int) =~= bytes@);
    }

    /// Ask the display service to move the cursor back one position.
    /// Always reports success, whether or not the queue had room.
    pub fn backspace(&mut self) -> (ok: bool)
        requires
            old(self).wf(),
        ensures
            final(self).wf(),
            ok,
            final(self).current_cursor == old(self).current_cursor,
            !old(self).ipc_queue.is_full() ==> final(self).ipc_queue@ == old(self).ipc_queue@.push(Message::VgaBackspace),
            old(self).ipc_queue.is_full() ==> final(self).ipc_queue@ == old(self).ipc_queue@,
    {
        let _ = self.send_ipc(Message::VgaBackspace);
        true
    }
}

} // verus!
