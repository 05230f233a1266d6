use vstd::prelude::*;

verus! {

/// The last `N` items pushed, newest first.
pub struct HistoryBuffer<T, const N: usize> {
    ring: Vec<T>,
    head: usize,
    filled: bool,
}

impl<T: Default, const N: usize> HistoryBuffer<T, N> {
    pub closed spec fn ring(&self) -> Seq<T> {
        self.ring@
    }

    pub closed spec fn head(&self) -> nat {
        self.head as nat
    }

    pub closed spec fn filled(&self) -> bool {
        self.filled
    }

    pub closed spec fn wf(&self) -> bool {
        &&& N > 0
        &&& self.ring@.len() == N
        &&& self.head < N
    }

    /// How many items are kept.
    pub open spec fn len_spec(&self) -> nat {
        if self.filled() { N as nat } else { self.head() }
    }

    /// The item pushed `idx` pushes ago (0 is the newest).
    pub open spec fn item(&self, idx: int) -> T {
        if idx < self.head() { self.ring()[self.head() - idx - 1] } else { self.ring()[N + self.head() - idx - 1] }
    }

    pub fn new() -> (r: Self)
        requires
            N > 0,
        ensures
            r.wf(),
            r.len_spec() == 0,
    {
        let mut ring: Vec<T> = Vec::new();
        let mut i: usize = 0;
        while i < N
            invariant
                i <= N,
                ring@.len() == i,
            decreases N - i,
        {
            ring.push(T::default());
            i = i + 1;
        }
        HistoryBuffer { ring, head: 0, filled: false }
    }

    /// Adds `item` as the newest; the oldest is dropped when `N` are kept.
    pub fn push(&mut self, item: T)
        requires
            old(self).wf(),
        ensures
            final(self).wf(),
            final(self).item(0) == item,
            forall|i: int| 0 <= i < N - 1 ==> #[trigger] final(self).item(i + 1) == old(self).item(i),
            final(self).len_spec() == if old(self).len_spec() < N { old(self).len_spec() + 1 } else { N as nat },
    {
        self.ring.set(self.head, item);
        if self.head + 1 == N {
            self.filled = true;
            self.head = 0;
        } else {
            self.head = self.head + 1;
        }
    }

    /// The item pushed `idx` pushes ago (0 is the newest).
    pub fn get(&self, idx: usize) -> (r: &T)
        requires
            self.wf(),
            idx < self.len_spec(),
        ensures
            *r == self.item(idx as int),
    {
        let pos = if idx < self.head { self.head - idx - 1 } else { N - (idx + 1 - self.head) };
        &self.ring[pos]
    }

    /// How many items are kept.
    pub fn len(&self) -> (r: usize)
        requires
            self.wf(),
        ensures
            r == self.len_spec(),
    {
        if self.filled { N } else { self.head }
    }
}

} // verus!
