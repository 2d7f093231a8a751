use vstd::prelude::*;

use crate::ring::{lemma_dequeue_contents, lemma_enqueue_contents, QueueError, RingState, MSG_COUNT};

verus! {

/// The state after enqueuing each of `items` in turn, with the result of
/// each enqueue.
pub open spec fn enqueue_all(s: RingState, items: Seq<i32>) -> (RingState, Seq<Result<(), QueueError>>)
    decreases items.len(),
{
    if items.len() == 0 {
        (s, Seq::empty())
    } else {
        let (t, rs) = enqueue_all(s, items.drop_last());
        let (u, r) = t.enqueue(items.last());
        (u, rs.push(r))
    }
}

/// The state after `n` dequeues, with the result of each dequeue.
pub open spec fn dequeue_n(s: RingState, n: nat) -> (RingState, Seq<Result<i32, QueueError>>)
    decreases n,
{
    if n == 0 {
        (s, Seq::empty())
    } else {
        let (t, rs) = dequeue_n(s, (n - 1) as nat);
        let (u, r) = t.dequeue();
        (u, rs.push(r))
    }
}

/// The state after, for each of `items` in turn, one enqueue of it
/// followed by one dequeue, with the result of each dequeue.
pub open spec fn enqueue_dequeue_each(s: RingState, items: Seq<i32>) -> (RingState, Seq<Result<i32, QueueError>>)
    decreases items.len(),
{
    if items.len() == 0 {
        (s, Seq::empty())
    } else {
        let (t, rs) = enqueue_dequeue_each(s, items.drop_last());
        let (u, r) = t.enqueue(items.last()).0.dequeue();
        (u, rs.push(r))
    }
}

/// Each item as a successful dequeue result.
pub open spec fn all_ok(items: Seq<i32>) -> Seq<Result<i32, QueueError>> {
    Seq::new(items.len(), |i: int| Ok::<i32, QueueError>(items[i]))
}

proof fn lemma_enqueue_all(s: RingState, items: Seq<i32>)
    requires
        s.wf(),
        s.contents().len() + items.len() < MSG_COUNT,
    ensures
        enqueue_all(s, items).0.wf(),
        enqueue_all(s, items).0.contents() == s.contents() + items,
        enqueue_all(s, items).0.read == s.read,
        enqueue_all(s, items).0.write == (s.write + items.len()) % (MSG_COUNT as int),
        enqueue_all(s, items).1.len() == items.len(),
        forall|i: int| 0 <= i < items.len() ==> #[trigger] enqueue_all(s, items).1[i] == Ok::<(), QueueError>(()),
    decreases items.len(),
{
    if items.len() > 0 {
        let front = items.drop_last();
        lemma_enqueue_all(s, front);
        let t = enqueue_all(s, front).0;
        lemma_enqueue_contents(t, items.last());
        assert(t.contents() + seq![items.last()] == s.contents() + items) by {
            assert(items =~= front.push(items.last()));
            assert(s.contents() + items =~= (s.contents() + front).push(items.last()));
        }
        assert(t.contents().push(items.last()) =~= s.contents() + items);
    }
}

proof fn lemma_dequeue_n(s: RingState, n: nat)
    requires
        s.wf(),
        n <= s.contents().len(),
    ensures
        dequeue_n(s, n).0.wf(),
        dequeue_n(s, n).0.contents() == s.contents().subrange(n as int, s.contents().len() as int),
        dequeue_n(s, n).0.write == s.write,
        dequeue_n(s, n).0.read == (s.read + n) % (MSG_COUNT as int),
        dequeue_n(s, n).1 == all_ok(s.contents().subrange(0, n as int)),
    decreases n,
{
    if n > 0 {
        let m = (n - 1) as nat;
        lemma_dequeue_n(s, m);
        let c = s.contents();
        let (t, rs) = dequeue_n(s, m);
        lemma_dequeue_contents(t);
        let (u, r) = t.dequeue();
        assert(t.contents().len() == c.len() - m);
        assert(t.contents()[0] == c[m as int]);
        assert(r == Ok::<i32, QueueError>(c[m as int]));
        assert(t.contents().drop_first() =~= c.subrange(n as int, c.len() as int));
        assert(((s.read + m) % 16 + 1) % 16 == (s.read + n) % 16);
        assert(rs.push(r) =~= all_ok(c.subrange(0, n as int)));
    }
}

/// Starting from any empty port, each of `MSG_COUNT - 1` enqueues succeeds,
/// the next one fails with `Full` and changes nothing; one dequeue then makes
/// room for exactly one more enqueue.
pub proof fn lemma_capacity(s: RingState, items: Seq<i32>, extra: i32, more: i32)
    requires
        s.wf(),
        s.contents().len() == 0,
        items.len() == MSG_COUNT - 1,
    ensures
        forall|i: int| 0 <= i < items.len() ==> #[trigger] enqueue_all(s, items).1[i] == Ok::<(), QueueError>(()),
        enqueue_all(s, items).0.enqueue(extra).1 == Err::<(), QueueError>(QueueError::Full),
        enqueue_all(s, items).0.enqueue(extra).0 == enqueue_all(s, items).0,
        enqueue_all(s, items).0.dequeue().0.enqueue(extra).1 == Ok::<(), QueueError>(()),
        enqueue_all(s, items).0.dequeue().0.enqueue(extra).0.enqueue(more).1 == Err::<(), QueueError>(QueueError::Full),
{
    lemma_enqueue_all(s, items.drop_last());
    let t = enqueue_all(s, items.drop_last()).0;
    lemma_enqueue_contents(t, items.last());
    let full = enqueue_all(s, items).0;
    assert(full.contents().len() == MSG_COUNT - 1);
    lemma_enqueue_contents(full, extra);
    lemma_dequeue_contents(full);
    let d = full.dequeue().0;
    lemma_enqueue_contents(d, extra);
    let e = d.enqueue(extra).0;
    lemma_enqueue_contents(e, more);
}

/// A fresh port is empty: dequeue on it fails with `Empty`.
pub proof fn lemma_fresh_port_is_empty()
    ensures
        RingState::empty().dequeue().1 == Err::<i32, QueueError>(QueueError::Empty),
        RingState::empty().dequeue().0 == RingState::empty(),
{
}

/// Starting from any empty port, with the cursors anywhere on the ring,
/// fewer than `MSG_COUNT` enqueues all succeed and as many dequeues return
/// the items in the order they went in, leaving the port empty with both
/// cursors moved on by the number of items, modulo `MSG_COUNT`.
pub proof fn lemma_fifo(s: RingState, items: Seq<i32>)
    requires
        s.wf(),
        s.contents().len() == 0,
        items.len() < MSG_COUNT,
    ensures
        forall|i: int| 0 <= i < items.len() ==> #[trigger] enqueue_all(s, items).1[i] == Ok::<(), QueueError>(()),
        dequeue_n(enqueue_all(s, items).0, items.len()).1 == all_ok(items),
        dequeue_n(enqueue_all(s, items).0, items.len()).0.contents().len() == 0,
        dequeue_n(enqueue_all(s, items).0, items.len()).0.read == (s.read + items.len()) % (MSG_COUNT as int),
        dequeue_n(enqueue_all(s, items).0, items.len()).0.write == (s.write + items.len()) % (MSG_COUNT as int),
{
    lemma_enqueue_all(s, items);
    let t = enqueue_all(s, items).0;
    assert(s.contents() + items =~= items);
    lemma_dequeue_n(t, items.len());
    assert(items.subrange(0, items.len() as int) =~= items);
}

/// Any number of enqueue-then-dequeue rounds on an empty port, however many
/// times the cursors go around the ring, returns each item in its round,
/// keeps the port empty and leaves both cursors moved on by the number of
/// rounds, modulo `MSG_COUNT`.
pub proof fn lemma_wraparound(s: RingState, items: Seq<i32>)
    requires
        s.wf(),
        s.contents().len() == 0,
    ensures
        enqueue_dequeue_each(s, items).1 == all_ok(items),
        enqueue_dequeue_each(s, items).0.wf(),
        enqueue_dequeue_each(s, items).0.contents().len() == 0,
        enqueue_dequeue_each(s, items).0.read == (s.read + items.len()) % (MSG_COUNT as int),
        enqueue_dequeue_each(s, items).0.write == (s.write + items.len()) % (MSG_COUNT as int),
    decreases items.len(),
{
    if items.len() > 0 {
        let front = items.drop_last();
        lemma_wraparound(s, front);
        let t = enqueue_dequeue_each(s, front).0;
        lemma_enqueue_contents(t, items.last());
        let u = t.enqueue(items.last()).0;
        lemma_dequeue_contents(u);
        assert(enqueue_dequeue_each(s, items).1 =~= all_ok(items));
    }
}

} // verus!
