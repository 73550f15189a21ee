//! Fixed-capacity ring buffer used as the sample history for sparklines.

use vstd::prelude::*;

verus! {

/// What a history holds after one more `push`: the new value at the end,
/// with the oldest value dropped once `cap` values are held.
pub open spec fn pushed<T>(cap: nat, h: Seq<T>, value: T) -> Seq<T> {
    if h.len() < cap {
        h.push(value)
    } else {
        h.drop_first().push(value)
    }
}

/// What a fresh history holds after `values` were pushed, oldest first.
pub open spec fn pushed_all<T>(cap: nat, values: Seq<T>) -> Seq<T>
    decreases values.len(),
{
    if values.len() == 0 {
        Seq::empty()
    } else {
        pushed(cap, pushed_all(cap, values.drop_last()), values.last())
    }
}

/// The oldest index kept when `len` values were pushed into capacity `cap`.
pub open spec fn kept_from(cap: nat, len: nat) -> int {
    if len <= cap { 0 } else { len - cap }
}

/// History law: pushing any values, oldest first, into an empty history of
/// capacity `cap` leaves exactly the newest `min(len, cap)` of them, still in
/// the order they were pushed.
pub proof fn lemma_history_keeps_newest<T>(cap: nat, values: Seq<T>)
    requires
        cap > 0,
    ensures
        pushed_all(cap, values) == values.subrange(kept_from(cap, values.len()), values.len() as int),
    decreases values.len(),
{
    if values.len() > 0 {
        let prev = values.drop_last();
        lemma_history_keeps_newest(cap, prev);
        let h = pushed_all(cap, prev);
        if prev.len() < cap {
            assert(h.push(values.last()) =~= values.subrange(kept_from(cap, values.len()), values.len() as int));
        } else {
            assert(h.drop_first().push(values.last()) =~= values.subrange(kept_from(cap, values.len()), values.len() as int));
        }
    }
}

/// Ring of the most recent samples, with a capacity chosen at run time.
pub struct RingBuf<T: Copy + Default> {
    buf: Vec<T>,
    /// Number of items held, at most the capacity.
    len: usize,
    /// Index where the next write will go.
    head: usize,
}

impl<T: Copy + Default> RingBuf<T> {
    /// Internal consistency of the storage, which every operation keeps.
    pub closed spec fn well_formed(&self) -> bool {
        let n = self.buf@.len();
        &&& self.len <= n
        &&& (n == 0 ==> self.head == 0)
        &&& (n > 0 ==> self.head < n)
        &&& (self.len < n ==> self.head == self.len)
    }

    /// How many values the history keeps.
    pub closed spec fn cap(&self) -> nat {
        self.buf@.len()
    }

    /// The held values in chronological order (oldest first).
    pub closed spec fn view(&self) -> Seq<T> {
        let n = self.buf@.len() as int;
        if self.len < n {
            self.buf@.subrange(0, self.len as int)
        } else {
            self.buf@.subrange(self.head as int, n) + self.buf@.subrange(0, self.head as int)
        }
    }

    /// An empty history holding up to `capacity` values.
    pub fn new(capacity: usize) -> (r: Self)
        ensures
            r.well_formed(),
            r.cap() == capacity,
            r.view() == Seq::<T>::empty(),
    {
        let mut buf: Vec<T> = Vec::new();
        let mut i: usize = 0;
        while i < capacity
            invariant
                i <= capacity,
                buf@.len() == i,
            decreases capacity - i,
        {
            buf.push(T::default());
            i = i + 1;
        }
        Self { buf, len: 0, head: 0 }
    }

    /// Appends `value`, dropping the oldest value when full.
    pub fn push(&mut self, value: T)
        requires
            old(self).well_formed(),
            old(self).cap() > 0,
        ensures
            final(self).well_formed(),
            final(self).cap() == old(self).cap(),
            final(self).view() == pushed(old(self).cap(), old(self).view(), value),
    {
        let ghost before = self.view();
        let ghost old_buf = self.buf@;
        let n = self.buf.len();
        let h = self.head;
        self.buf.set(h, value);
        self.head = if h + 1 == n { 0 } else { h + 1 };
        if self.len < n {
            self.len = self.len + 1;
        }
        proof {
            assert(self.buf@ == old_buf.update(h as int, value));
            if before.len() < n {
                assert(self.view() =~= before.push(value));
            } else {
                assert(self.view() =~= before.drop_first().push(value));
            }
        }
    }

    /// Number of values held.
    pub fn len(&self) -> (r: usize)
        requires
            self.well_formed(),
        ensures
            r == self.view().len(),
            r <= self.cap(),
    {
        self.len
    }

    /// Most values held at once.
    pub fn capacity(&self) -> (r: usize)
        ensures
            r == self.cap(),
    {
        self.buf.len()
    }

    /// Whether no value is held.
    pub fn is_empty(&self) -> (r: bool)
        requires
            self.well_formed(),
        ensures
            r == (self.view().len() == 0),
    {
        self.len == 0
    }

    /// The items in chronological order (oldest first).
    pub fn iter(&self) -> (r: Vec<T>)
        requires
            self.well_formed(),
        ensures
            r@ == self.view(),
    {
        let n = self.buf.len();
        let start: usize = if self.len < n { 0 } else { self.head };
        let mut out: Vec<T> = Vec::new();
        let mut i: usize = 0;
        while i < self.len
            invariant
                i <= self.len,
                n == self.buf@.len(),
                self.well_formed(),
                start == (if self.len < n { 0 } else { self.head as int }),
                out@.len() == i,
                forall|k: int| 0 <= k < i ==> out@[k] == self.view()[k],
            decreases self.len - i,
        {
            let j = if i < n - start { start + i } else { i - (n - start) };
            out.push(self.buf[j]);
            i = i + 1;
        }
        proof {
            assert(out@ =~= self.view());
        }
        out
    }

    /// Changes the capacity, keeping the newest values that fit.
    pub fn resize(&mut self, capacity: usize)
        requires
            old(self).well_formed(),
        ensures
            final(self).well_formed(),
            final(self).cap() == capacity,
            final(self).view() == old(self).view().subrange(
                kept_from(capacity as nat, old(self).view().len()),
                old(self).view().len() as int,
            ),
    {
        let items = self.iter();
        let start: usize = if items.len() > capacity { items.len() - capacity } else { 0 };
        let mut fresh = RingBuf::<T>::new(capacity);
        let mut i = start;
        while i < items.len()
            invariant
                start <= i <= items@.len(),
                items@.len() - start <= capacity,
                fresh.well_formed(),
                fresh.cap() == capacity,
                fresh.view() == items@.subrange(start as int, i as int),
            decreases items@.len() - i,
        {
            fresh.push(items[i]);
            proof {
                assert(items@.subrange(start as int, i + 1) =~= items@.subrange(start as int, i as int).push(items@[i as int]));
            }
            i = i + 1;
        }
        *self = fresh;
    }
}

/// Fixed-capacity ring buffer of the `N` most recent samples.
pub struct RingBuffer<T: Copy + Default, const N: usize> {
    ring: RingBuf<T>,
}

impl<T: Copy + Default, const N: usize> RingBuffer<T, N> {
    /// Internal consistency of the storage, which every operation keeps.
    pub closed spec fn well_formed(&self) -> bool {
        self.ring.well_formed() && self.ring.cap() == N
    }

    /// The held values in chronological order (oldest first).
    pub closed spec fn view(&self) -> Seq<T> {
        self.ring.view()
    }

    /// An empty history.
    pub fn new() -> (r: Self)
        ensures
            r.well_formed(),
            r.view() == Seq::<T>::empty(),
    {
        RingBuffer { ring: RingBuf::new(N) }
    }

    /// Appends `value`, dropping the oldest value when full.
    pub fn push(&mut self, value: T)
        requires
            N > 0,
            old(self).well_formed(),
        ensures
            final(self).well_formed(),
            final(self).view() == pushed(N as nat, old(self).view(), value),
    {
        self.ring.push(value);
    }

    /// Number of values held.
    pub fn len(&self) -> (r: usize)
        requires
            self.well_formed(),
        ensures
            r == self.view().len(),
            r <= N,
    {
        self.ring.len()
    }

    /// Most values held at once.
    pub fn capacity(&self) -> (r: usize)
        ensures
            r == N,
    {
        N
    }

    /// Whether no value is held.
    pub fn is_empty(&self) -> (r: bool)
        requires
            self.well_formed(),
        ensures
            r == (self.view().len() == 0),
    {
        self.ring.is_empty()
    }

    /// The items in chronological order (oldest first).
    pub fn iter(&self) -> (r: Vec<T>)
        requires
            self.well_formed(),
        ensures
            r@ == self.view(),
    {
        self.ring.iter()
    }
}

impl<T: Copy + Default, const N: usize> Default for RingBuffer<T, N> {
    fn default() -> (r: Self)
        ensures
            r.well_formed(),
            r.view() == Seq::<T>::empty(),
    {
        Self::new()
    }
}

} // verus!
