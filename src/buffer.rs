use vstd::prelude::*;

use std::collections::VecDeque;

verus! {

/// A bounded store of training windows, newest first. Appending puts new
/// entries at the front; once the bound is passed the oldest entries, at the
/// back, are dropped.
pub struct ReplayBuffer<T> {
    items: VecDeque<T>,
    maximum: usize,
}

/// What a buffer bounded by `maximum` holds after `staged` is put in front
/// of `items`.
pub open spec fn after_append<T>(items: Seq<T>, staged: Seq<T>, maximum: int) -> Seq<T> {
    let all = staged + items;
    if all.len() > maximum {
        all.take(maximum)
    } else {
        all
    }
}

impl<T> View for ReplayBuffer<T> {
    type V = Seq<T>;

    closed spec fn view(&self) -> Seq<T> {
        self.items@
    }
}

impl<T> ReplayBuffer<T> {
    /// The bound the buffer was made with.
    pub closed spec fn capacity(&self) -> nat {
        self.maximum as nat
    }

    /// The buffer holds no more entries than its bound.
    pub open spec fn wf(&self) -> bool {
        self@.len() <= self.capacity()
    }

    /// An empty buffer that holds at most `maximum` entries.
    pub fn new(maximum: usize) -> (r: Self)
        ensures
            r@.len() == 0,
            r.capacity() == maximum,
            r.wf(),
    {
        ReplayBuffer { items: VecDeque::new(), maximum }
    }

    /// Number of entries held.
    pub fn len(&self) -> (r: usize)
        ensures
            r == self@.len(),
    {
        self.items.len()
    }

    /// The bound the buffer was made with.
    pub fn maximum(&self) -> (r: usize)
        ensures
            r == self.capacity(),
    {
        self.maximum
    }

    /// The entry at `index`, counted from the newest.
    pub fn get(&self, index: usize) -> (r: &T)
        requires
            index < self@.len(),
        ensures
            *r == self@[index as int],
    {
        &self.items[index]
    }

    /// Moves the entries of `staged` (newest first) to the front of the
    /// buffer, keeping their order, then drops the oldest entries beyond the
    /// bound.
    pub fn append(&mut self, staged: &mut VecDeque<T>)
        requires
            old(self).wf(),
        ensures
            final(self).capacity() == old(self).capacity(),
            final(self)@ == after_append(old(self)@, old(staged)@, old(self).capacity() as int),
            final(self)@.len() <= final(self).capacity(),
            final(self).wf(),
            final(staged)@.len() == 0,
    {
        let ghost before = self.items@;
        let ghost all = staged@;
        while staged.len() > 0
            invariant
                self.maximum == old(self).maximum,
                staged@ == all.take(staged@.len() as int),
                staged@.len() <= all.len(),
                self.items@ == all.skip(staged@.len() as int) + before,
            decreases staged@.len(),
        {
            let ghost k = staged@.len() as int;
            match staged.pop_back() {
                Some(item) => {
                    self.items.push_front(item);
                    proof {
                        assert(staged@ =~= all.take(k - 1));
                        assert(item == all[k - 1]);
                        assert(self.items@ =~= all.skip(k - 1) + before);
                    }
                },
                None => {},
            }
        }
        proof {
            assert(all.skip(0) =~= all);
        }
        if self.items.len() > self.maximum {
            self.items.truncate(self.maximum);
        }
    }

    /// An entry drawn uniformly from the buffer.
    pub fn sample(&self, rng: &mut rand::rngs::StdRng) -> (r: &T)
        requires
            self@.len() > 0,
        ensures
            exists|i: int| 0 <= i < self@.len() && *r == self@[i],
    {
        let i = crate::random::uniform_index(rng, self.items.len());
        &self.items[i]
    }
}

} // verus!
