//! A first-in first-out queue stored in a circular buffer that doubles its
//! capacity when it is full.
use vstd::prelude::*;

verus! {

/// Items are kept in `buffer`, starting at slot `head` and wrapping round at
/// `capacity`; `tail` is the slot of the newest item. The buffer only grows
/// as far as slots have been written.
pub struct RingBuffer<T> {
    head: usize,
    tail: usize,
    size: usize,
    capacity: usize,
    buffer: Vec<T>,
}

impl<T: Copy> RingBuffer<T> {
    /// The slot of the item at position `i`, counted from the oldest.
    pub closed spec fn slot(&self, i: int) -> int {
        if self.head + i < self.capacity {
            self.head + i
        } else {
            self.head + i - self.capacity
        }
    }

    /// The items held, oldest first.
    pub closed spec fn view(&self) -> Seq<T> {
        Seq::new(self.size as nat, |i: int| self.buffer@[self.slot(i)])
    }

    /// Every slot written so far, in slot order.
    pub closed spec fn slots(&self) -> Seq<T> {
        self.buffer@
    }

    /// The number of slots before the buffer has to grow.
    pub closed spec fn cap(&self) -> nat {
        self.capacity as nat
    }

    pub closed spec fn inv(&self) -> bool {
        &&& 0 < self.capacity
        &&& self.head < self.capacity
        &&& self.size <= self.capacity
        &&& self.buffer@.len() <= self.capacity
        &&& (self.head + self.size <= self.buffer@.len() || self.buffer@.len() == self.capacity)
        &&& (self.size > 0 ==> self.tail == self.slot(self.size - 1))
    }

    /// An empty queue with room for `capacity` items before it grows.
    pub fn new(capacity: usize) -> (r: RingBuffer<T>)
        requires
            capacity > 0,
        ensures
            r.inv(),
            r@ == Seq::<T>::empty(),
            r.cap() == capacity,
    {
        let r = RingBuffer { head: 0, tail: 0, size: 0, capacity, buffer: Vec::with_capacity(capacity) };
        proof {
            assert(r@ =~= Seq::<T>::empty());
        }
        r
    }

    /// The number of items held.
    pub fn size(&self) -> (r: usize)
        requires
            self.inv(),
        ensures
            r == self@.len(),
    {
        self.size
    }

    /// The number of slots before the buffer has to grow.
    pub fn capacity(&self) -> (r: usize)
        requires
            self.inv(),
        ensures
            r == self.cap(),
    {
        self.capacity
    }

    /// The underlying storage, whose length is the number of slots written.
    pub fn storage(&self) -> (r: &Vec<T>)
        requires
            self.inv(),
        ensures
            r@ == self.slots(),
            r@.len() <= self.cap(),
    {
        &self.buffer
    }

    /// The slot after `i`, wrapping round at the capacity.
    fn next_slot(&self, i: usize) -> (r: usize)
        requires
            self.inv(),
            i < self.capacity,
        ensures
            r == (if i + 1 < self.capacity { i + 1 } else { 0 }),
    {
        if i + 1 < self.capacity {
            i + 1
        } else {
            0
        }
    }

    /// Adds `item` as the newest; a full buffer first doubles its capacity.
    pub fn enque(&mut self, item: T)
        requires
            old(self).inv(),
            old(self).cap() <= usize::MAX / 2,
        ensures
            final(self).inv(),
            final(self)@ == old(self)@.push(item),
            final(self).cap() == (if old(self)@.len() == old(self).cap() {
                2 * old(self).cap()
            } else {
                old(self).cap()
            }),
    {
        if self.size == self.capacity {
            self.resize();
        }
        let ghost before = self@;
        let pos = if self.head + self.size < self.capacity {
            self.head + self.size
        } else {
            self.head + self.size - self.capacity
        };
        if pos == self.buffer.len() {
            self.buffer.push(item);
        } else {
            self.buffer.set(pos, item);
        }
        self.tail = pos;
        self.size = self.size + 1;
        proof {
            assert forall|i: int| 0 <= i < self.size implies #[trigger] self@[i] == before.push(
                item,
            )[i] by {
                if i < self.size - 1 {
                    assert(self.slot(i) != pos);
                }
            }
            assert(self@ =~= before.push(item));
        }
    }

    /// Takes out the oldest item.
    pub fn deque(&mut self) -> (r: T)
        requires
            old(self).inv(),
            old(self)@.len() > 0,
        ensures
            final(self).inv(),
            r == old(self)@[0],
            final(self)@ == old(self)@.drop_first(),
            final(self).cap() == old(self).cap(),
    {
        let first_item = self.buffer[self.head];
        self.head = self.next_slot(self.head);
        self.size = self.size - 1;
        proof {
            assert forall|i: int| 0 <= i < self.size implies #[trigger] self@[i] == old(
                self,
            )@.drop_first()[i] by {
                assert(old(self).slot(i + 1) == self.slot(i));
            }
            assert(self@ =~= old(self)@.drop_first());
        }
        first_item
    }

    /// Copies the items, oldest first, to the front of a buffer twice the
    /// capacity.
    fn resize(&mut self)
        requires
            old(self).inv(),
            old(self).cap() <= usize::MAX / 2,
        ensures
            final(self).inv(),
            final(self)@ == old(self)@,
            final(self).cap() == 2 * old(self).cap(),
            final(self).head == 0,
            final(self).buffer@.len() == final(self).size,
    {
        let new_capacity = self.capacity * 2;
        let mut new_buffer: Vec<T> = Vec::with_capacity(new_capacity);
        let mut i: usize = 0;
        let mut idx = self.head;
        while i < self.size
            invariant
                self.inv(),
                *self == *old(self),
                i <= self.size,
                new_buffer@.len() == i,
                idx == (if i < self.size { self.slot(i as int) } else { idx as int }),
                idx < self.capacity,
                forall|j: int| 0 <= j < i ==> #[trigger] new_buffer@[j] == self@[j],
            decreases self.size - i,
        {
            new_buffer.push(self.buffer[idx]);
            idx = self.next_slot(idx);
            i = i + 1;
        }
        let ghost items = self@;
        self.head = 0;
        self.tail = if self.size > 0 { self.size - 1 } else { 0 };
        self.capacity = new_capacity;
        self.buffer = new_buffer;
        proof {
            assert(self@ =~= items);
        }
    }
}

} // verus!
