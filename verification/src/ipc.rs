//! The system message queue between the kernel core and user-space
//! services: a fixed-size ring buffer with one slot kept free, so it holds
//! at most `MAX_MESSAGES - 1` messages.

use vstd::prelude::*;

verus! {

/// Number of slots of the ring buffer.
pub const MAX_MESSAGES: usize = 32;

/// Messages exchanged between the kernel and its services.
#[derive(Clone, Copy, PartialEq, Eq, Structural, Debug)]
pub enum Message {
    /// A single character to be printed to the screen.
    VgaPrint(u8),
    /// Clear the entire screen.
    VgaClear,
    /// Move the cursor back one position.
    VgaBackspace,
}

/// A single-producer single-consumer ring buffer of messages.
pub struct MessageQueue {
    buffer: Vec<Option<Message>>,
    head: usize,
    tail: usize,
}

impl MessageQueue {
    /// Slot indices are in range and every slot between head and tail holds
    /// a message.
    pub closed spec fn wf(&self) -> bool {
        &&& self.buffer@.len() == MAX_MESSAGES
        &&& self.head < MAX_MESSAGES
        &&& self.tail < MAX_MESSAGES
        &&& forall|i: int| 0 <= i < self.len_spec() ==> (#[trigger] self.buffer@[(self.head + i) % (MAX_MESSAGES as int)]) is Some
    }

    /// Number of queued messages.
    closed spec fn len_spec(&self) -> int {
        (self.tail + MAX_MESSAGES - self.head) % (MAX_MESSAGES as int)
    }

    /// The queued messages, oldest first.
    pub closed spec fn view(&self) -> Seq<Message> {
        Seq::new(self.len_spec() as nat, |i: int| self.buffer@[(self.head + i) % (MAX_MESSAGES as int)]->0)
    }

    /// A queue never holds more than `MAX_MESSAGES - 1` messages.
    pub proof fn lemma_len_bound(&self)
        requires
            self.wf(),
        ensures
            self@.len() <= MAX_MESSAGES - 1,
    {
    }

    /// Create an empty queue.
    pub fn new() -> (q: Self)
        ensures
            q.wf(),
            q@ == Seq::<Message>::empty(),
    {
        let q = MessageQueue { buffer: vec![None; MAX_MESSAGES], head: 0, tail: 0 };
        assert(q@ =~= Seq::<Message>::empty());
        q
    }

    /// The queue can hold no further message.
    pub open spec fn is_full(&self) -> bool {
        self@.len() == MAX_MESSAGES - 1
    }

    /// Enqueue `msg`. Returns `false`, leaving the queue unchanged, when the
    /// queue already holds `MAX_MESSAGES - 1` messages.
    pub fn send(&mut self, msg: Message) -> (ok: bool)
        requires
            old(self).wf(),
        ensures
            final(self).wf(),
            final(self)@.len() <= MAX_MESSAGES - 1,
            ok == !old(self).is_full(),
            ok ==> final(self)@ == old(self)@.push(msg),
            !ok ==> *final(self) == *old(self),
    {
        let tail = self.tail;
        let next_tail = (tail + 1) % MAX_MESSAGES;
        if next_tail == self.head {
            return false;
        }
        let ghost old_q = *self;
        self.buffer.set(tail, Some(msg));
        self.tail = next_tail;
        assert forall|i: int| 0 <= i < self.len_spec() implies (#[trigger] self.buffer@[(self.head + i) % (MAX_MESSAGES as int)]) is Some by {
            if i < old_q.len_spec() {
                assert((self.head + i) % (MAX_MESSAGES as int) != tail);
            }
        }
        assert forall|i: int| 0 <= i < old_q@.len() implies #[trigger] self@[i] == old_q@[i] by {
            assert((self.head + i) % (MAX_MESSAGES as int) != tail);
        }
        assert(self@ =~= old_q@.push(msg));
        true
    }

    proof fn lemma_advance(h: int, i: int)
        requires
            0 <= h < MAX_MESSAGES,
            0 <= i < MAX_MESSAGES,
        ensures
            ((h + 1) % (MAX_MESSAGES as int) + i) % (MAX_MESSAGES as int) == (h + (i + 1)) % (MAX_MESSAGES as int),
            i + 1 < MAX_MESSAGES ==> (h + (i + 1)) % (MAX_MESSAGES as int) != h,
    {
    }

    /// Dequeue the oldest message, or `None` when the queue is empty.
    pub fn receive(&mut self) -> (r: Option<Message>)
        requires
            old(self).wf(),
        ensures
            final(self).wf(),
            old(self)@.len() == 0 ==> r is None && final(self)@ == old(self)@,
            old(self)@.len() > 0 ==> r == Some(old(self)@[0]) && final(self)@ == old(self)@.drop_first(),
    {
        let head = self.head;
        if head == self.tail {
            return None;
        }
        let ghost old_q = *self;
        let msg = self.buffer[head];
        self.buffer.set(head, None);
        self.head = (head + 1) % MAX_MESSAGES;
        assert(self.len_spec() == old_q.len_spec() - 1);
        assert forall|i: int| 0 <= i < self.len_spec() implies (#[trigger] self.buffer@[(self.head + i) % (MAX_MESSAGES as int)]) is Some by {
            Self::lemma_advance(old_q.head as int, i);
            assert(old_q.buffer@[(old_q.head + (i + 1)) % (MAX_MESSAGES as int)] is Some);
        }
        assert forall|i: int| 0 <= i < self@.len() implies #[trigger] self@[i] == old_q@[i + 1] by {
            Self::lemma_advance(old_q.head as int, i);
        }
        assert(self@ =~= old_q@.drop_first());
        assert(msg == Some(old_q@[0])) by {
            assert(old_q.buffer@[(old_q.head + 0) % (MAX_MESSAGES as int)] is Some);
        }
        msg
    }
}

/// Messages come out of a queue in the order they went in: after a
/// successful send, the next receive returns the oldest message queued
/// before it, or the sent message when the queue was empty.
pub proof fn law_fifo(before: Seq<Message>, msg: Message)
    requires
        before.len() < MAX_MESSAGES - 1,
    ensures
        before.push(msg)[0] == if before.len() == 0 { msg } else { before[0] },
        before.len() > 0 ==> before.push(msg).drop_first() == before.drop_first().push(msg),
{
    if before.len() > 0 {
        assert(before.push(msg).drop_first() =~= before.drop_first().push(msg));
    }
}

} // verus!
