//! A fixed-capacity ring that keeps the last items pushed into it: the
//! buffer behind the tail of a stream, which cannot be read backwards.

use vstd::prelude::*;

verus! {

/// The last `n` items of `s` (all of `s` when it has no more than `n`).
pub open spec fn last_n<T>(s: Seq<T>, n: nat) -> Seq<T> {
    if s.len() <= n {
        s
    } else {
        s.skip(s.len() - n)
    }
}

/// Slot of the `i`-th oldest item in a full ring whose oldest item is at
/// `head`.
pub open spec fn slot(head: int, i: int, len: int) -> int {
    if head + i < len {
        head + i
    } else {
        head + i - len
    }
}

/// A circular buffer of at most `capacity` items. Once full, each new item
/// overwrites the oldest one, so that the ring always holds the last
/// `capacity` items pushed, oldest first.
pub struct Ring<T> {
    buf: Vec<T>,
    head: usize,
    cap: usize,
    pushed: Ghost<Seq<T>>,
}

impl<T> View for Ring<T> {
    type V = Seq<T>;

    /// The items held, oldest first.
    open spec fn view(&self) -> Seq<T> {
        last_n(self.pushed(), self.capacity())
    }
}

impl<T> Ring<T> {
    /// The most items the ring holds.
    pub closed spec fn capacity(&self) -> nat {
        self.cap as nat
    }

    /// Every item pushed into the ring since it was created, in order.
    pub closed spec fn pushed(&self) -> Seq<T> {
        self.pushed@
    }

    pub closed spec fn wf(&self) -> bool {
        let len = self.buf@.len();
        let held = last_n(self.pushed@, self.cap as nat);
        &&& self.cap > 0
        &&& len == held.len()
        &&& len <= self.cap
        &&& (len < self.cap ==> self.head == 0)
        &&& (self.head < self.cap)
        &&& forall|i: int|
            0 <= i < len ==> #[trigger] held[i] == self.buf@[slot(self.head as int, i, len as int)]
    }

    /// An empty ring that holds at most `capacity` items.
    pub fn new(capacity: usize) -> (r: Self)
        requires
            capacity > 0,
        ensures
            r.wf(),
            r.capacity() == capacity,
            r.pushed() == Seq::<T>::empty(),
            r@ == Seq::<T>::empty(),
    {
        Ring { buf: Vec::new(), head: 0, cap: capacity, pushed: Ghost(Seq::empty()) }
    }

    /// Number of items held.
    pub fn len(&self) -> (n: usize)
        requires
            self.wf(),
        ensures
            n == self@.len(),
    {
        self.buf.len()
    }

    /// Pushes `item`; when the ring is full the oldest item is dropped.
    pub fn push(&mut self, item: T)
        requires
            old(self).wf(),
        ensures
            final(self).wf(),
            final(self).capacity() == old(self).capacity(),
            final(self).pushed() == old(self).pushed().push(item),
            final(self)@ == if old(self)@.len() < old(self).capacity() {
                old(self)@.push(item)
            } else {
                old(self)@.drop_first().push(item)
            },
    {
        let ghost old_held = self@;
        let ghost cap = self.cap as nat;
        let ghost old_pushed = self.pushed@;
        let ghost new_pushed = old_pushed.push(item);
        if self.buf.len() < self.cap {
            self.buf.push(item);
            self.pushed = Ghost(new_pushed);
            proof {
                assert(old_pushed.len() < cap);
                assert(last_n(new_pushed, cap) =~= new_pushed);
                assert(self@ =~= old_held.push(item));
            }
        } else {
            let h = self.head;
            self.buf.set(h, item);
            self.head = if h + 1 == self.cap {
                0
            } else {
                h + 1
            };
            self.pushed = Ghost(new_pushed);
            proof {
                let len = cap as int;
                assert(old_pushed.len() >= cap);
                assert(last_n(new_pushed, cap) =~= old_held.drop_first().push(item));
                let held = last_n(new_pushed, cap);
                assert forall|i: int| 0 <= i < len implies #[trigger] held[i] == self.buf@[slot(
                    self.head as int,
                    i,
                    len,
                )] by {
                    if i < len - 1 {
                        assert(held[i] == old_held[i + 1]);
                        assert(slot(self.head as int, i, len) == slot(h as int, i + 1, len));
                    } else {
                        assert(slot(self.head as int, i, len) == h);
                    }
                }
            }
        }
    }

    /// The `i`-th oldest item held.
    pub fn get(&self, i: usize) -> (item: &T)
        requires
            self.wf(),
            i < self@.len(),
        ensures
            *item == self@[i as int],
    {
        let len = self.buf.len();
        let k = if self.head < len - i {
            self.head + i
        } else {
            self.head - (len - i)
        };
        proof {
            assert(k == slot(self.head as int, i as int, len as int));
        }
        &self.buf[k]
    }
}

} // verus!
