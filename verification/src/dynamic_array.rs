//! A growable array of copyable items, kept in a buffer of optional slots.

use vstd::prelude::*;

verus! {

/// The number of slots of a new buffer.
const MIN_SIZE: usize = 8;

/// A growable array. Its view is the sequence of its items in the order in
/// which they were appended.
pub struct TimestampSaver<T> {
    /// The slots: the items first, then the empty ones.
    buf: Vec<Option<T>>,
    /// The number of slots.
    cap: usize,
    /// The number of items. The methods of the array keep it; whoever writes to
    /// it gives up `wf`.
    pub length: usize,
}

impl<T> View for TimestampSaver<T> {
    type V = Seq<T>;

    /// The items in the order in which they were appended.
    closed spec fn view(&self) -> Seq<T> {
        Seq::new(self.length as nat, |i: int| self.buf[i].unwrap())
    }
}

impl<T> TimestampSaver<T> {
    /// The number that the field `length` holds.
    pub closed spec fn len(&self) -> nat {
        self.length as nat
    }

    /// The number of slots of the buffer.
    pub closed spec fn capacity(&self) -> nat {
        self.cap as nat
    }

    /// The buffer has `capacity()` slots, of which the first `length` are
    /// filled and the others empty.
    pub closed spec fn wf(&self) -> bool {
        &&& self.buf.len() == self.cap
        &&& self.length <= self.cap
        &&& forall|i: int| 0 <= i < self.length ==> (#[trigger] self.buf[i]) is Some
        &&& forall|i: int| self.length <= i < self.cap ==> (#[trigger] self.buf[i]) is None
    }

    /// In a well-formed array `length` counts the items, and they fit in the
    /// buffer.
    pub proof fn lemma_shape(&self)
        requires
            self.wf(),
        ensures
            self.len() == self@.len(),
            self.len() <= self.capacity(),
    {
    }
}

impl<T: Copy> TimestampSaver<T> {
    /// An empty array with a buffer of eight slots.
    pub fn new_empty() -> (array: Self)
        ensures
            array.wf(),
            array@ == Seq::<T>::empty(),
            array.len() == 0,
            array.capacity() == 8,
    {
        let array = Self { buf: vec![None; MIN_SIZE], cap: MIN_SIZE, length: 0 };
        array
    }

    /// Replaces the buffer by one of half as many slots again, and of `min_cap`
    /// slots at least; the slot count stops at `usize::MAX`.
    fn grow(&mut self, min_cap: usize)
        requires
            old(self).wf(),
        ensures
            final(self).wf(),
            final(self)@ == old(self)@,
            final(self).length == old(self).length,
            final(self).cap >= min_cap,
            final(self).cap >= old(self).cap,
            final(self).cap == if old(self).cap + (old(self).cap >> 1) > usize::MAX {
                usize::MAX
            } else if old(self).cap + (old(self).cap >> 1) >= min_cap {
                (old(self).cap + (old(self).cap >> 1)) as usize
            } else {
                min_cap
            },
    {
        let old_cap = self.buf.len();
        let half = old_cap >> 1;
        let mut new_cap = if old_cap <= usize::MAX - half {
            old_cap + half
        } else {
            usize::MAX
        };
        if new_cap < min_cap {
            new_cap = min_cap;
        }
        let mut buf: Vec<Option<T>> = vec![None; new_cap];
        let mut i: usize = 0;
        while i < old_cap
            invariant
                old(self).wf(),
                *self == *old(self),
                old_cap == self.buf.len(),
                old_cap <= new_cap,
                i <= old_cap,
                buf.len() == new_cap,
                forall|k: int| 0 <= k < i ==> buf[k] == self.buf[k],
                forall|k: int| i <= k < new_cap ==> (#[trigger] buf[k]) is None,
            decreases old_cap - i,
        {
            buf[i] = self.buf[i];
            i += 1;
        }
        self.cap = new_cap;
        self.buf = buf;
    }

    /// The item at `index`, if there is one.
    pub fn at(&mut self, index: usize) -> (r: Option<T>)
        requires
            old(self).wf(),
        ensures
            *final(self) == *old(self),
            r == if index < old(self)@.len() {
                Some(old(self)@[index as int])
            } else {
                None
            },
    {
        if self.length > index {
            self.buf[index]
        } else {
            None
        }
    }

    /// Appends `value`, growing the buffer first when it is full.
    pub fn append(&mut self, value: T)
        requires
            old(self).wf(),
            old(self).len() < usize::MAX,
        ensures
            final(self).wf(),
            final(self)@ == old(self)@.push(value),
            final(self).len() == old(self).len() + 1,
            final(self).capacity() >= old(self).capacity(),
            old(self).len() < old(self).capacity() ==> final(self).capacity() == old(
                self,
            ).capacity(),
    {
        if self.cap == self.length {
            self.grow(self.length + 1)
        }
        let at = self.length;
        self.buf[at] = Some(value);
        self.length += 1;
    }

    /// Hands the buffer to an iterator that starts at its first slot.
    pub fn into_iter(self) -> (it: ListIterator<T>)
        requires
            self.wf(),
        ensures
            it.position() == 0,
            it.slots().len() == self.capacity(),
            forall|i: int| 0 <= i < self@.len() ==> it.slots()[i] == Some(self@[i]),
            forall|i: int| self@.len() <= i < it.slots().len() ==> it.slots()[i] is None,
    {
        ListIterator::new(0, self.buf)
    }
}

/// A cursor over the slots of a buffer.
pub struct ListIterator<T> {
    current: usize,
    data: Vec<Option<T>>,
}

impl<T> ListIterator<T> {
    /// The slots of the buffer, filled or empty.
    pub closed spec fn slots(&self) -> Seq<Option<T>> {
        self.data@
    }

    /// The index of the slot that comes next.
    pub closed spec fn position(&self) -> nat {
        self.current as nat
    }

    fn new(index: usize, buf: Vec<Option<T>>) -> (it: ListIterator<T>)
        ensures
            it.position() == index,
            it.slots() == buf@,
    {
        ListIterator { current: index, data: buf }
    }
}

impl<T: Copy> ListIterator<T> {
    /// Yields the slot under the cursor and moves the cursor one slot on;
    /// yields nothing once the cursor is past the last slot.
    pub fn next(&mut self) -> (r: Option<T>)
        ensures
            final(self).slots() == old(self).slots(),
            old(self).position() < old(self).slots().len() ==> r == old(self).slots()[old(
                self,
            ).position() as int] && final(self).position() == old(self).position() + 1,
            old(self).position() >= old(self).slots().len() ==> r is None && final(self).position()
                == old(self).position(),
    {
        if self.current < self.data.len() {
            let item = self.data[self.current];
            self.current += 1;
            item
        } else {
            None
        }
    }

    /// Yields the slot under the cursor and moves the cursor one slot back,
    /// from the first slot to the last one; yields nothing once the cursor is
    /// past the last slot.
    pub fn next_back(&mut self) -> (r: Option<T>)
        ensures
            final(self).slots() == old(self).slots(),
            old(self).position() < old(self).slots().len() ==> r == old(self).slots()[old(
                self,
            ).position() as int] && final(self).position() == if old(self).position() == 0 {
                (old(self).slots().len() - 1) as nat
            } else {
                (old(self).position() - 1) as nat
            },
            old(self).position() >= old(self).slots().len() ==> r is None && final(self).position()
                == old(self).position(),
    {
        if self.current < self.data.len() {
            let item = self.data[self.current];
            if self.current == 0 {
                self.current = self.data.len() - 1;
            } else {
                self.current -= 1;
            }
            item
        } else {
            None
        }
    }
}

} // verus!
