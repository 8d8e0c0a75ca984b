//! A fixed-capacity circular buffer with independent read and write cursors.
//!
//! The buffer holds `capacity` slots. `push` writes at the write cursor and
//! advances it, `pop` reads at the read cursor and advances it; both wrap
//! around. `put` and `peek` read and write without moving the cursors.
use vstd::prelude::*;
use vstd::arithmetic::div_mod::{
    lemma_add_mod_noop_right, lemma_mod_add_multiples_vanish, lemma_mod_bound, lemma_mod_self_0,
    lemma_mod_sub_multiples_vanish, lemma_small_mod,
};

verus! {

pub struct RingBuffer<T> {
    buffer: Vec<T>,
    head: usize,
    tail: usize,
}

/// `v` is a value that `T::default()` may return.
pub open spec fn is_default<T: Default>(v: T) -> bool {
    call_ensures(T::default, (), v)
}

/// Every slot of `s` holds `v`.
pub open spec fn all_equal<T>(s: Seq<T>, v: T) -> bool {
    forall|i: int| 0 <= i < s.len() ==> s[i] == v
}

impl<T: Copy + Default> RingBuffer<T> {
    /// The slots, in storage order.
    pub closed spec fn slots(&self) -> Seq<T> {
        self.buffer@
    }

    /// Where the next `pop` or `peek` reads.
    pub closed spec fn read_index(&self) -> int {
        self.tail as int
    }

    /// Where the next `push` or `put` writes.
    pub closed spec fn write_index(&self) -> int {
        self.head as int
    }

    /// Both cursors point at a slot (or are zero when there is none).
    pub closed spec fn wf(&self) -> bool {
        if self.buffer@.len() == 0 {
            self.head == 0 && self.tail == 0
        } else {
            self.head < self.buffer@.len() && self.tail < self.buffer@.len()
        }
    }

    /// Number of slots.
    pub open spec fn cap(&self) -> int {
        self.slots().len() as int
    }

    /// A buffer of `capacity` slots, each holding `T::default()`, with both
    /// cursors at slot 0.
    pub fn new(capacity: usize) -> (r: Self)
        ensures
            r.wf(),
            r.cap() == capacity,
            r.read_index() == 0,
            r.write_index() == 0,
            capacity > 0 ==> all_equal(r.slots(), r.slots()[0]) && is_default(r.slots()[0]),
    {
        let fill = T::default();
        let mut buffer: Vec<T> = Vec::new();
        let mut i: usize = 0;
        while i < capacity
            invariant
                i <= capacity,
                buffer@.len() == i,
                all_equal(buffer@, fill),
            decreases capacity - i,
        {
            buffer.push(fill);
            i += 1;
        }
        RingBuffer { buffer, head: 0, tail: 0 }
    }

    /// Sets every slot to `T::default()` and both cursors to slot 0.
    pub fn reset(&mut self)
        requires
            old(self).wf(),
        ensures
            final(self).wf(),
            final(self).cap() == old(self).cap(),
            final(self).read_index() == 0,
            final(self).write_index() == 0,
            final(self).cap() > 0 ==> all_equal(final(self).slots(), final(self).slots()[0]) && is_default(final(self).slots()[0]),
    {
        let fill = T::default();
        let n = self.buffer.len();
        let mut i: usize = 0;
        while i < n
            invariant
                i <= n,
                self.buffer@.len() == n,
                forall|j: int| 0 <= j < i ==> self.buffer@[j] == fill,
            decreases n - i,
        {
            self.buffer.set(i, fill);
            i += 1;
        }
        self.head = 0;
        self.tail = 0;
    }

    /// Writes `value` at the write cursor without moving it.
    pub fn put(&mut self, value: T)
        requires
            old(self).wf(),
            old(self).cap() > 0,
        ensures
            final(self).wf(),
            final(self).slots() == old(self).slots().update(old(self).write_index(), value),
            final(self).read_index() == old(self).read_index(),
            final(self).write_index() == old(self).write_index(),
    {
        self.buffer.set(self.head, value);
    }

    /// The value at the read cursor; the cursor does not move.
    pub fn peek(&self) -> (r: T)
        requires
            self.wf(),
            self.cap() > 0,
        ensures
            r == self.slots()[self.read_index()],
    {
        self.buffer[self.tail]
    }

    /// The value `offset` slots past the read cursor, wrapping around.
    pub fn get(&self, offset: usize) -> (r: T)
        requires
            self.wf(),
            self.cap() > 0,
        ensures
            r == self.slots()[(self.read_index() + offset) % self.cap()],
    {
        let cap = self.buffer.len();
        let step = offset % cap;
        let index = if step < cap - self.tail {
            self.tail + step
        } else {
            step - (cap - self.tail)
        };
        proof {
            let c = cap as int;
            let t = self.tail as int;
            let o = offset as int;
            lemma_mod_bound(o, c);
            lemma_add_mod_noop_right(t, o, c);
            lemma_small_mod(t as nat, c as nat);
            if step < cap - self.tail {
                lemma_small_mod((t + step) as nat, c as nat);
            } else {
                lemma_mod_sub_multiples_vanish(t + step, c);
                lemma_small_mod((t + step - c) as nat, c as nat);
            }
        }
        self.buffer[index]
    }

    /// Writes `value` at the write cursor, then advances the cursor.
    pub fn push(&mut self, value: T)
        requires
            old(self).wf(),
            old(self).cap() > 0,
        ensures
            final(self).wf(),
            final(self).slots() == old(self).slots().update(old(self).write_index(), value),
            final(self).read_index() == old(self).read_index(),
            final(self).write_index() == (old(self).write_index() + 1) % old(self).cap(),
    {
        self.buffer.set(self.head, value);
        self.head = self.next(self.head);
    }

    /// Reads the value at the read cursor, then advances the cursor.
    pub fn pop(&mut self) -> (r: T)
        requires
            old(self).wf(),
            old(self).cap() > 0,
        ensures
            final(self).wf(),
            r == old(self).slots()[old(self).read_index()],
            final(self).slots() == old(self).slots(),
            final(self).write_index() == old(self).write_index(),
            final(self).read_index() == (old(self).read_index() + 1) % old(self).cap(),
    {
        let value = self.buffer[self.tail];
        self.tail = self.next(self.tail);
        value
    }

    pub fn get_read_index(&self) -> (r: usize)
        ensures
            r == self.read_index(),
    {
        self.tail
    }

    /// Moves the read cursor to slot `index`, wrapped into the buffer.
    pub fn set_read_index(&mut self, index: usize)
        requires
            old(self).wf(),
            old(self).cap() > 0,
        ensures
            final(self).wf(),
            final(self).slots() == old(self).slots(),
            final(self).write_index() == old(self).write_index(),
            final(self).read_index() == index as int % old(self).cap(),
    {
        self.tail = index % self.buffer.len();
    }

    pub fn get_write_index(&self) -> (r: usize)
        ensures
            r == self.write_index(),
    {
        self.head
    }

    /// Moves the write cursor to slot `index`, wrapped into the buffer.
    pub fn set_write_index(&mut self, index: usize)
        requires
            old(self).wf(),
            old(self).cap() > 0,
        ensures
            final(self).wf(),
            final(self).slots() == old(self).slots(),
            final(self).read_index() == old(self).read_index(),
            final(self).write_index() == index as int % old(self).cap(),
    {
        self.head = index % self.buffer.len();
    }

    /// How many values lie between the read and the write cursor: the
    /// distance from the first to the second, going forward and wrapping.
    pub fn len(&self) -> (r: usize)
        requires
            self.wf(),
        ensures
            self.cap() == 0 ==> r == 0,
            self.cap() > 0 ==> r == (self.write_index() - self.read_index()) % self.cap(),
    {
        proof {
            if self.buffer@.len() > 0 {
                let c = self.buffer@.len() as int;
                let d = self.head as int - self.tail as int;
                if d >= 0 {
                    lemma_small_mod(d as nat, c as nat);
                } else {
                    lemma_mod_add_multiples_vanish(d, c);
                    lemma_small_mod((d + c) as nat, c as nat);
                }
            }
        }
        if self.head >= self.tail {
            self.head - self.tail
        } else {
            self.buffer.len() - self.tail + self.head
        }
    }

    /// The number of slots.
    pub fn capacity(&self) -> (r: usize)
        ensures
            r == self.cap(),
    {
        self.buffer.len()
    }

    /// The slot after `i`, wrapping to 0.
    fn next(&self, i: usize) -> (r: usize)
        requires
            i < self.buffer@.len(),
        ensures
            r == (i + 1) % (self.buffer@.len() as int),
    {
        proof {
            let c = self.buffer@.len() as int;
            if i + 1 < c {
                lemma_small_mod((i + 1) as nat, c as nat);
            } else {
                lemma_mod_self_0(c);
            }
        }
        if i < self.buffer.len() - 1 {
            i + 1
        } else {
            0
        }
    }
}

} // verus!
