//! A fixed-capacity ring buffer for high-frequency input samples.
//!
//! When the buffer is full, pushing overwrites the oldest sample. The buffer
//! is generic over the sample type; what a sample holds (pointer position,
//! pressure, timestamps) is up to the caller.

use vstd::prelude::*;

verus! {

/// The stored samples after pushing `x` onto `s` with room for `cap`: the
/// oldest is dropped when `s` is already full.
pub open spec fn pushed<T>(s: Seq<T>, x: T, cap: nat) -> Seq<T> {
    if s.len() < cap {
        s.push(x)
    } else {
        s.drop_first().push(x)
    }
}

/// The last `min(pushes.len(), cap)` entries of `pushes`: what a buffer of
/// capacity `cap` holds after receiving `pushes` from empty.
pub open spec fn last_n<T>(pushes: Seq<T>, cap: nat) -> Seq<T> {
    if pushes.len() <= cap {
        pushes
    } else {
        pushes.subrange(pushes.len() - cap, pushes.len() as int)
    }
}

/// Ring-buffer slot of the `i`-th oldest sample when the oldest sits at
/// `start` (wrapping once past the end).
pub open spec fn ring_slot(start: int, i: int, cap: int) -> int {
    if start + i < cap {
        start + i
    } else {
        start + i - cap
    }
}

/// Ring buffer of samples. When the buffer is full, the oldest sample is
/// overwritten.
#[derive(Debug)]
pub struct InputBuffer<T> {
    samples: Vec<Option<T>>,
    head: usize,
    len: usize,
}

impl<T: Copy> InputBuffer<T> {
    /// Slot of the oldest stored sample.
    pub closed spec fn start(&self) -> int {
        if self.head >= self.len {
            self.head - self.len
        } else {
            self.head + self.samples@.len() - self.len
        }
    }

    /// The buffer's shape is consistent: a positive capacity, the write slot
    /// inside it, at most `capacity` samples, the write slot at the count
    /// until the buffer first fills, and every stored slot occupied.
    pub closed spec fn wf(&self) -> bool {
        &&& self.samples@.len() > 0
        &&& self.head < self.samples@.len()
        &&& self.len <= self.samples@.len()
        &&& self.len < self.samples@.len() ==> self.head == self.len
        &&& forall|i: int|
            0 <= i < self.len ==> (#[trigger] self.samples@[ring_slot(self.start(), i, self.samples@.len() as int)]).is_some()
    }

    /// The maximum number of samples.
    pub closed spec fn cap(&self) -> nat {
        self.samples@.len()
    }

    /// The stored samples, oldest first.
    pub closed spec fn contents(&self) -> Seq<T> {
        Seq::new(
            self.len as nat,
            |i: int| self.samples@[ring_slot(self.start(), i, self.samples@.len() as int)].unwrap(),
        )
    }

    /// An empty buffer holding up to `capacity` samples.
    pub fn new(capacity: usize) -> (b: Self)
        requires
            capacity > 0,
        ensures
            b.wf(),
            b.cap() == capacity,
            b.contents() == Seq::<T>::empty(),
    {
        let mut samples: Vec<Option<T>> = Vec::new();
        let mut i: usize = 0;
        while i < capacity
            invariant
                0 <= i <= capacity,
                samples@.len() == i,
            decreases capacity - i,
        {
            samples.push(None);
            i = i + 1;
        }
        let b = InputBuffer { samples, head: 0, len: 0 };
        assert(b.contents() =~= Seq::<T>::empty());
        b
    }

    /// Push a new sample; when full, the oldest sample is overwritten.
    pub fn push(&mut self, sample: T)
        requires
            old(self).wf(),
        ensures
            final(self).wf(),
            final(self).cap() == old(self).cap(),
            final(self).contents() == pushed(old(self).contents(), sample, old(self).cap()),
    {
        let cap = self.samples.len();
        let ghost before = self.contents();
        let ghost start0 = self.start();
        self.samples.set(self.head, Some(sample));
        let h = self.head + 1;
        if h < cap {
            self.head = h;
        } else {
            self.head = 0;
        }
        if self.len < cap {
            self.len = self.len + 1;
        }
        proof {
            let c = cap as int;
            assert forall|i: int| 0 <= i < self.len implies (#[trigger] self.samples@[ring_slot(self.start(), i, c)]).is_some() by {
                if self.len == old(self).len {
                    let j = i + 1;
                    if j < self.len {
                        assert(ring_slot(self.start(), i, c) == ring_slot(start0, j, c));
                    }
                }
            }
            if old(self).len < c {
                assert(self.contents() =~= before.push(sample));
            } else {
                assert forall|i: int| 0 <= i < self.len - 1 implies ring_slot(self.start(), i, c) == ring_slot(start0, i + 1, c) by {
                }
                assert(self.contents() =~= before.drop_first().push(sample));
            }
        }
    }

    /// The most recently pushed sample, or `None` if empty.
    pub fn latest(&self) -> (r: Option<T>)
        requires
            self.wf(),
        ensures
            self.contents().len() == 0 ==> r.is_none(),
            self.contents().len() > 0 ==> r == Some(self.contents().last()),
    {
        if self.len == 0 {
            return None;
        }
        let idx = if self.head == 0 {
            self.samples.len() - 1
        } else {
            self.head - 1
        };
        proof {
            assert(ring_slot(self.start(), self.len - 1, self.samples@.len() as int) == idx);
        }
        self.samples[idx]
    }

    /// Clear all stored samples.
    pub fn clear(&mut self)
        requires
            old(self).wf(),
        ensures
            final(self).wf(),
            final(self).cap() == old(self).cap(),
            final(self).contents() == Seq::<T>::empty(),
    {
        let cap = self.samples.len();
        let mut i: usize = 0;
        while i < cap
            invariant
                0 <= i <= cap,
                self.samples@.len() == cap,
                cap > 0,
            decreases cap - i,
        {
            self.samples.set(i, None);
            i = i + 1;
        }
        self.head = 0;
        self.len = 0;
        assert(self.contents() =~= Seq::<T>::empty());
    }

    /// The maximum number of samples this buffer can hold.
    pub fn capacity(&self) -> (c: usize)
        ensures
            c == self.cap(),
    {
        self.samples.len()
    }

    /// The number of samples currently stored.
    pub fn len(&self) -> (n: usize)
        requires
            self.wf(),
        ensures
            n == self.contents().len(),
    {
        self.len
    }

    /// Whether no samples are stored.
    pub fn is_empty(&self) -> (b: bool)
        requires
            self.wf(),
        ensures
            b == (self.contents().len() == 0),
    {
        self.len == 0
    }

    /// The stored samples, oldest first.
    pub fn iter_oldest_first(&self) -> (v: Vec<T>)
        requires
            self.wf(),
        ensures
            v@ == self.contents(),
    {
        let cap = self.samples.len();
        let start: usize = if self.len < cap {
            0
        } else {
            self.head
        };
        let mut v: Vec<T> = Vec::new();
        let mut i: usize = 0;
        while i < self.len
            invariant
                self.wf(),
                cap == self.samples@.len(),
                start == self.start(),
                0 <= i <= self.len,
                v@ == self.contents().subrange(0, i as int),
            decreases self.len - i,
        {
            let idx = if start < cap - i {
                start + i
            } else {
                start - (cap - i)
            };
            assert(idx == ring_slot(self.start(), i as int, cap as int));
            let s = self.samples[idx].unwrap();
            proof {
                assert(self.contents().subrange(0, i + 1) =~= self.contents().subrange(0, i as int).push(s));
            }
            v.push(s);
            i = i + 1;
        }
        assert(self.contents().subrange(0, self.len as int) =~= self.contents());
        v
    }

    /// The stored samples, newest first.
    pub fn iter_newest_first(&self) -> (v: Vec<T>)
        requires
            self.wf(),
        ensures
            v@ == self.contents().reverse(),
    {
        let cap = self.samples.len();
        let mut v: Vec<T> = Vec::new();
        let mut i: usize = 0;
        while i < self.len
            invariant
                self.wf(),
                cap == self.samples@.len(),
                0 <= i <= self.len,
                v@ == self.contents().reverse().subrange(0, i as int),
            decreases self.len - i,
        {
            let idx = if self.head > i {
                self.head - 1 - i
            } else {
                self.head + (cap - 1 - i)
            };
            assert(idx == ring_slot(self.start(), self.len - 1 - i, cap as int));
            let s = self.samples[idx].unwrap();
            proof {
                assert(self.contents().reverse().subrange(0, i + 1) =~= self.contents().reverse().subrange(
                    0,
                    i as int,
                ).push(s));
            }
            v.push(s);
            i = i + 1;
        }
        assert(self.contents().reverse().subrange(0, self.len as int) =~= self.contents().reverse());
        v
    }
}

impl<T: Copy> Default for InputBuffer<T> {
    /// An empty buffer with room for 256 samples.
    fn default() -> (b: Self)
        ensures
            b.wf(),
            b.cap() == 256,
            b.contents() == Seq::<T>::empty(),
    {
        Self::new(256)
    }
}

/// Pushing samples one by one into an empty buffer keeps exactly the last
/// `capacity` of them (all of them while fewer were pushed).
pub proof fn lemma_push_keeps_last<T>(s: Seq<T>, pushes: Seq<T>, x: T, cap: nat)
    requires
        cap > 0,
        s == last_n(pushes, cap),
    ensures
        pushed(s, x, cap) == last_n(pushes.push(x), cap),
{
    let p2 = pushes.push(x);
    if pushes.len() < cap {
        assert(pushed(s, x, cap) =~= p2);
    } else if pushes.len() == cap {
        assert(s =~= pushes);
        assert(pushed(s, x, cap) =~= p2.subrange(p2.len() - cap, p2.len() as int));
    } else {
        assert(pushed(s, x, cap) =~= p2.subrange(p2.len() - cap, p2.len() as int));
    }
}

/// The stored samples after pushing each of `pushes`, in order, onto `s`
/// with room for `cap`.
pub open spec fn pushed_all<T>(s: Seq<T>, pushes: Seq<T>, cap: nat) -> Seq<T>
    decreases pushes.len(),
{
    if pushes.len() == 0 {
        s
    } else {
        pushed(pushed_all(s, pushes.drop_last(), cap), pushes.last(), cap)
    }
}

/// A buffer that received `pushes` from empty holds the last `capacity` of
/// them, oldest first; the most recent is `latest`.
pub proof fn lemma_contents_after_pushes<T>(pushes: Seq<T>, cap: nat)
    requires
        cap > 0,
    ensures
        pushed_all(Seq::<T>::empty(), pushes, cap) == last_n(pushes, cap),
        last_n(Seq::<T>::empty(), cap) == Seq::<T>::empty(),
        last_n(pushes, cap).len() == if pushes.len() <= cap {
            pushes.len()
        } else {
            cap
        },
        pushes.len() > 0 ==> last_n(pushes, cap).last() == pushes.last(),
    decreases pushes.len(),
{
    if pushes.len() > 0 {
        let prev = pushes.drop_last();
        lemma_contents_after_pushes(prev, cap);
        lemma_push_keeps_last(pushed_all(Seq::<T>::empty(), prev, cap), prev, pushes.last(), cap);
        assert(prev.push(pushes.last()) =~= pushes);
    } else {
        assert(last_n(pushes, cap) =~= Seq::<T>::empty());
    }
}

} // verus!
