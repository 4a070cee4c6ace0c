//! An unbounded ring-buffer FIFO queue.
use vstd::prelude::*;

verus! {

/// Slot that holds the `i`-th oldest item of a ring of `cap` slots whose
/// oldest item sits at `head` (with `head < cap` and `i < cap`).
pub open spec fn ring_index(head: int, i: int, cap: int) -> int {
    if head + i < cap {
        head + i
    } else {
        head + i - cap
    }
}

/// A simple unbounded ring-buffer FIFO queue.
///
/// The memory footprint grows (by doubling) when the ring is full, and never
/// shrinks. Freed slots are reused by later wrap-around writes.
pub struct Fifo<T> {
    /// The circular buffer; it is filled by pushes until it reaches `cap`
    /// slots, after which writes wrap around.
    buffer: Vec<Option<T>>,
    /// The number of slots of the current ring.
    cap: usize,
    /// The number of items in the queue.
    size: usize,
    /// The slot used for the next dequeue.
    head: usize,
    /// The slot used for the next enqueue.
    tail: usize,
}

impl<T> View for Fifo<T> {
    type V = Seq<T>;

    /// The items of the queue, oldest first.
    closed spec fn view(&self) -> Seq<T> {
        Seq::new(
            self.size as nat,
            |i: int| self.buffer@[ring_index(self.head as int, i, self.cap as int)]->Some_0,
        )
    }
}

impl<T> Fifo<T> {
    /// Well-formedness of the ring: every occupied slot holds an item, and
    /// `tail` is the slot just after the newest item.
    pub closed spec fn wf(&self) -> bool {
        &&& 0 < self.cap
        &&& self.buffer@.len() <= self.cap
        &&& self.head < self.cap
        &&& self.size <= self.cap
        &&& self.tail == ring_index(self.head as int, self.size as int, self.cap as int)
        &&& self.buffer@.len() < self.cap ==> self.head + self.size == self.buffer@.len()
        &&& forall|i: int|
            0 <= i < self.size ==> {
                let k = #[trigger] ring_index(self.head as int, i, self.cap as int);
                0 <= k < self.buffer@.len() && self.buffer@[k] is Some
            }
    }

    /// The number of slots that the ring currently has.
    pub closed spec fn capacity(&self) -> nat {
        self.cap as nat
    }

    /// An empty queue with room for 512 items before it first grows.
    pub fn new() -> (r: Self)
        ensures
            r.wf(),
            r@ == Seq::<T>::empty(),
            r.capacity() == 512,
    {
        Self::with_capacity(512)
    }

    /// An empty queue with room for `capacity` items before it first grows.
    pub fn with_capacity(capacity: usize) -> (r: Self)
        requires
            capacity > 0,
        ensures
            r.wf(),
            r@ == Seq::<T>::empty(),
            r.capacity() == capacity,
    {
        let r = Fifo { buffer: Vec::with_capacity(capacity), cap: capacity, size: 0, head: 0, tail: 0 };
        assert(r@ =~= Seq::<T>::empty());
        r
    }

    /// The number of items in the queue.
    pub fn len(&self) -> (r: usize)
        requires
            self.wf(),
        ensures
            r == self@.len(),
    {
        self.size
    }
    /// Appends `item` as the newest item of the queue. When the ring is full,
    /// it is first reallocated with twice as many slots, keeping the items in
    /// order.
    pub fn enqueue(&mut self, item: T)
        requires
            old(self).wf(),
            old(self)@.len() < usize::MAX / 2,
        ensures
            final(self).wf(),
            final(self)@ == old(self)@.push(item),
    {
        let ghost items = self@;
        if self.size == self.cap {
            // The ring is full: move its items, oldest first, into a new one
            // of twice the size.
            let cap = self.cap;
            let head = self.head;
            let new_cap = cap * 2;
            let mut old_buffer: Vec<Option<T>> = Vec::with_capacity(new_cap);
            std::mem::swap(&mut self.buffer, &mut old_buffer);
            let mut new_buffer: Vec<Option<T>> = Vec::with_capacity(new_cap);
            let mut i: usize = 0;
            while i < cap
                invariant
                    cap == items.len(),
                    new_cap == 2 * cap,
                    new_cap < usize::MAX,
                    head < cap,
                    0 <= i <= cap,
                    old_buffer@.len() == cap,
                    new_buffer@.len() == i,
                    forall|j: int| 0 <= j < i ==> new_buffer@[j] == Some(items[j]),
                    forall|j: int|
                        i <= j < cap ==> old_buffer@[#[trigger] ring_index(head as int, j, cap as int)]
                            == Some(items[j]),
                decreases cap - i,
            {
                let k: usize = if head + i < cap {
                    head + i
                } else {
                    head + i - cap
                };
                assert(k == ring_index(head as int, i as int, cap as int));
                let mut slot: Option<T> = None;
                std::mem::swap(&mut old_buffer[k], &mut slot);
                new_buffer.push(slot);
                i += 1;
            }
            new_buffer.push(Some(item));
            self.buffer = new_buffer;
            self.cap = new_cap;
            self.head = 0;
            self.size = cap + 1;
            self.tail = if self.size == new_cap {
                0
            } else {
                self.size
            };
            assert(self@ =~= items.push(item));
        } else if self.buffer.len() < self.cap {
            // The buffer has not yet been filled: append to it.
            self.buffer.push(Some(item));
            self.tail = if self.tail + 1 == self.cap {
                0
            } else {
                self.tail + 1
            };
            self.size += 1;
            assert(self@ =~= items.push(item));
        } else {
            // The buffer has been filled: reuse a freed slot.
            self.buffer[self.tail] = Some(item);
            self.tail = if self.tail + 1 == self.cap {
                0
            } else {
                self.tail + 1
            };
            self.size += 1;
            assert(self@ =~= items.push(item));
        }
    }

    /// The oldest item of the queue, if any, without removing it.
    pub fn peek(&self) -> (r: Option<&T>)
        requires
            self.wf(),
        ensures
            match r {
                Some(x) => self@.len() > 0 && *x == self@[0],
                None => self@.len() == 0,
            },
    {
        if self.size > 0 {
            assert(ring_index(self.head as int, 0, self.cap as int) == self.head);
            match &self.buffer[self.head] {
                Some(x) => Some(x),
                None => None,
            }
        } else {
            None
        }
    }

    /// Removes and returns the oldest item of the queue, if any.
    pub fn dequeue(&mut self) -> (r: Option<T>)
        requires
            old(self).wf(),
        ensures
            final(self).wf(),
            old(self)@.len() == 0 ==> r is None && final(self)@ == old(self)@,
            old(self)@.len() > 0 ==> r == Some(old(self)@[0]) && final(self)@
                == old(self)@.drop_first(),
    {
        let ghost items = self@;
        if self.size > 0 {
            assert(ring_index(self.head as int, 0, self.cap as int) == self.head);
            let mut slot: Option<T> = None;
            std::mem::swap(&mut self.buffer[self.head], &mut slot);
            self.head = if self.head + 1 == self.cap {
                0
            } else {
                self.head + 1
            };
            self.size -= 1;
            let ghost old_head = if self.head == 0 { self.cap - 1 } else { self.head - 1 };
            assert forall|i: int| 0 <= i < self.size implies {
                let k = #[trigger] ring_index(self.head as int, i, self.cap as int);
                0 <= k < self.buffer@.len() && self.buffer@[k] is Some
            } by {
                assert(ring_index(self.head as int, i, self.cap as int) == ring_index(
                    old_head as int,
                    i + 1,
                    self.cap as int,
                ));
            }
            assert(self@ =~= items.drop_first());
            slot
        } else {
            None
        }
    }
}

/// What a run of queue operations does to a queue holding `q`, following the
/// contracts of `Fifo::enqueue` and `Fifo::dequeue`: `Some(x)` enqueues `x`
/// and `None` dequeues. The result is the sequence of items handed out by the
/// dequeues, and the contents that are left.
pub open spec fn run_ops<T>(q: Seq<T>, ops: Seq<Option<T>>) -> (Seq<T>, Seq<T>)
    decreases ops.len(),
{
    if ops.len() == 0 {
        (Seq::empty(), q)
    } else {
        match ops[0] {
            Some(x) => run_ops(q.push(x), ops.drop_first()),
            None => if q.len() == 0 {
                run_ops(q, ops.drop_first())
            } else {
                let rest = run_ops(q.drop_first(), ops.drop_first());
                (seq![q[0]] + rest.0, rest.1)
            },
        }
    }
}

/// The items that a run of queue operations enqueues, in order.
pub open spec fn enqueued<T>(ops: Seq<Option<T>>) -> Seq<T>
    decreases ops.len(),
{
    if ops.len() == 0 {
        Seq::empty()
    } else {
        match ops[0] {
            Some(x) => seq![x] + enqueued(ops.drop_first()),
            None => enqueued(ops.drop_first()),
        }
    }
}

/// FIFO order: whatever the interleaving of enqueues and dequeues (and so
/// however often the ring grows), the items handed out, followed by those
/// left in the queue, are the initial contents followed by the enqueued items
/// in the order they were enqueued.
pub proof fn lemma_fifo_order<T>(q: Seq<T>, ops: Seq<Option<T>>)
    ensures
        run_ops(q, ops).0 + run_ops(q, ops).1 == q + enqueued(ops),
    decreases ops.len(),
{
    if ops.len() > 0 {
        let rest = ops.drop_first();
        match ops[0] {
            Some(x) => {
                lemma_fifo_order(q.push(x), rest);
                assert(q.push(x) + enqueued(rest) =~= q + enqueued(ops));
            },
            None => {
                if q.len() == 0 {
                    lemma_fifo_order(q, rest);
                } else {
                    lemma_fifo_order(q.drop_first(), rest);
                    let r = run_ops(q.drop_first(), rest);
                    assert(seq![q[0]] + r.0 + r.1 =~= seq![q[0]] + (r.0 + r.1));
                    assert(seq![q[0]] + (q.drop_first() + enqueued(rest)) =~= q + enqueued(ops));
                }
            },
        }
    } else {
        assert(Seq::<T>::empty() + q =~= q + enqueued(ops));
    }
}

} // verus!
