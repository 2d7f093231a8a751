use vstd::prelude::*;

verus! {

/// Number of slots of a port. One of them always stays free, so a port
/// holds at most `MSG_COUNT - 1` messages.
pub const MSG_COUNT: usize = 16;

/// Why an operation on a port did not take place.
#[derive(PartialEq, Eq, Structural, Clone, Copy, Debug)]
pub enum QueueError {
    /// `enqueue` on a port that holds `MSG_COUNT - 1` messages.
    Full,
    /// `dequeue` on a port that holds no message.
    Empty,
    /// The shared memory region bound to a name could not be obtained.
    RegionUnavailable,
}

/// The abstract state of a port: its slots and its two cursors.
pub struct RingState {
    pub slots: Seq<i32>,
    pub write: int,
    pub read: int,
}

impl RingState {
    /// The state of a fresh port: every slot zeroed, both cursors at 0.
    pub open spec fn empty() -> RingState {
        RingState { slots: Seq::new(MSG_COUNT as nat, |i: int| 0i32), write: 0, read: 0 }
    }

    pub open spec fn wf(self) -> bool {
        &&& self.slots.len() == MSG_COUNT
        &&& 0 <= self.write < MSG_COUNT
        &&& 0 <= self.read < MSG_COUNT
    }

    /// Number of messages held: the distance from the read cursor to the
    /// write cursor around the ring.
    pub open spec fn len(self) -> int {
        (self.write - self.read + MSG_COUNT) % (MSG_COUNT as int)
    }

    pub open spec fn is_full(self) -> bool {
        (self.write + 1) % (MSG_COUNT as int) == self.read
    }

    pub open spec fn is_empty(self) -> bool {
        self.write == self.read
    }

    /// The messages held, oldest first.
    pub open spec fn contents(self) -> Seq<i32> {
        Seq::new(self.len() as nat, |i: int| self.slots[(self.read + i) % (MSG_COUNT as int)])
    }

    /// Enqueue: refused when full, else the item goes to the slot under the
    /// write cursor and the write cursor moves one step around the ring.
    pub open spec fn enqueue(self, item: i32) -> (RingState, Result<(), QueueError>) {
        if self.is_full() {
            (self, Err(QueueError::Full))
        } else {
            (
                RingState {
                    slots: self.slots.update(self.write, item),
                    write: (self.write + 1) % (MSG_COUNT as int),
                    read: self.read,
                },
                Ok(()),
            )
        }
    }

    /// Dequeue: refused when empty, else the item under the read cursor is
    /// returned and the read cursor moves one step around the ring.
    pub open spec fn dequeue(self) -> (RingState, Result<i32, QueueError>) {
        if self.is_empty() {
            (self, Err(QueueError::Empty))
        } else {
            (
                RingState {
                    slots: self.slots,
                    write: self.write,
                    read: (self.read + 1) % (MSG_COUNT as int),
                },
                Ok(self.slots[self.read]),
            )
        }
    }
}

/// On a well-formed state, enqueue keeps the state well formed, is refused
/// exactly when `MSG_COUNT - 1` messages are held, and otherwise appends the
/// item to the contents.
pub proof fn lemma_enqueue_contents(s: RingState, item: i32)
    requires
        s.wf(),
    ensures
        s.enqueue(item).0.wf(),
        s.is_full() <==> s.contents().len() == MSG_COUNT - 1,
        s.contents().len() < MSG_COUNT,
        !s.is_full() ==> s.enqueue(item).0.contents() == s.contents().push(item),
{
    let n = s.enqueue(item).0;
    if !s.is_full() {
        assert(n.len() == s.len() + 1);
        assert forall|i: int| 0 <= i < n.len() implies #[trigger] n.contents()[i]
            == s.contents().push(item)[i] by {
            if i < s.len() {
                assert((s.read + i) % 16 != s.write);
            } else {
                assert((s.read + i) % 16 == s.write);
            }
        }
        assert(n.contents() =~= s.contents().push(item));
    }
}

/// On a well-formed state, dequeue keeps the state well formed, is refused
/// exactly when no message is held, and otherwise returns the oldest message
/// and removes it from the contents.
pub proof fn lemma_dequeue_contents(s: RingState)
    requires
        s.wf(),
    ensures
        s.dequeue().0.wf(),
        s.is_empty() <==> s.contents().len() == 0,
        !s.is_empty() ==> s.dequeue().1 == Ok::<i32, QueueError>(s.contents()[0]),
        !s.is_empty() ==> s.dequeue().0.contents() == s.contents().drop_first(),
{
    let n = s.dequeue().0;
    if !s.is_empty() {
        assert(n.len() == s.len() - 1);
        assert forall|i: int| 0 <= i < n.len() implies #[trigger] n.contents()[i]
            == s.contents().drop_first()[i] by {
            assert((n.read + i) % 16 == (s.read + (i + 1)) % 16);
        }
        assert(n.contents() =~= s.contents().drop_first());
    }
}

/// A fixed-capacity circular queue of `i32` messages, addressed by a write
/// cursor and a read cursor that move one slot at a time modulo `MSG_COUNT`.
pub struct QueuingPort {
    slots: [i32; MSG_COUNT],
    write_index: usize,
    read_index: usize,
}

impl View for QueuingPort {
    type V = RingState;

    closed spec fn view(&self) -> RingState {
        RingState { slots: self.slots@, write: self.write_index as int, read: self.read_index as int }
    }
}

impl QueuingPort {
    #[verifier::type_invariant]
    spec fn cursors_in_range(&self) -> bool {
        &&& self.write_index < MSG_COUNT
        &&& self.read_index < MSG_COUNT
    }

    /// An empty port: every slot zeroed, both cursors at 0.
    pub fn new() -> (p: Self)
        ensures
            p@ == RingState::empty(),
            p@.contents() == Seq::<i32>::empty(),
    {
        let p = QueuingPort { slots: [0i32; MSG_COUNT], write_index: 0, read_index: 0 };
        assert(p@.slots =~= RingState::empty().slots);
        assert(p@.contents() =~= Seq::<i32>::empty());
        p
    }

    /// Stores `item` under the write cursor and advances the write cursor,
    /// or fails with `Full`, leaving the port unchanged, when it already
    /// holds `MSG_COUNT - 1` messages.
    pub fn enqueue(&mut self, item: i32) -> (r: Result<(), QueueError>)
        ensures
            old(self)@.wf() && final(self)@.wf(),
            (final(self)@, r) == old(self)@.enqueue(item),
            r is Err <==> old(self)@.contents().len() == MSG_COUNT - 1,
            r is Err ==> r == Err::<(), QueueError>(QueueError::Full) && final(self)@ == old(self)@,
            r is Ok ==> final(self)@.contents() == old(self)@.contents().push(item),
    {
        proof {
            use_type_invariant(&*self);
            lemma_enqueue_contents(self@, item);
        }
        let write = self.write_index;
        let next = (write + 1) % MSG_COUNT;
        if next == self.read_index {
            return Err(QueueError::Full);
        }
        self.slots[write] = item;
        self.write_index = next;
        assert(self@.slots =~= old(self)@.enqueue(item).0.slots);
        Ok(())
    }

    /// Removes and returns the message under the read cursor and advances
    /// the read cursor, or fails with `Empty`, leaving the port unchanged,
    /// when it holds no message.
    pub fn dequeue(&mut self) -> (r: Result<i32, QueueError>)
        ensures
            old(self)@.wf() && final(self)@.wf(),
            (final(self)@, r) == old(self)@.dequeue(),
            r is Err <==> old(self)@.contents().len() == 0,
            r is Err ==> r == Err::<i32, QueueError>(QueueError::Empty) && final(self)@ == old(self)@,
            r is Ok ==> r == Ok::<i32, QueueError>(old(self)@.contents()[0])
                && final(self)@.contents() == old(self)@.contents().drop_first(),
    {
        proof {
            use_type_invariant(&*self);
            lemma_dequeue_contents(self@);
        }
        let read = self.read_index;
        if read == self.write_index {
            return Err(QueueError::Empty);
        }
        let value = self.slots[read];
        self.read_index = (read + 1) % MSG_COUNT;
        Ok(value)
    }

    /// Number of messages the port holds.
    pub fn len(&self) -> (n: usize)
        ensures
            self@.wf(),
            n == self@.contents().len(),
    {
        proof {
            use_type_invariant(self);
        }
        (self.write_index + MSG_COUNT - self.read_index) % MSG_COUNT
    }
}

} // verus!
